//! Attraction: every edge pulls its two ends together.
//!
//! The pull of an edge is added to the speed of its first node and taken
//! from the speed of its second node. With `dissuade_hubs` the pull on the
//! first node, and on it alone, is divided by that node's mass. An edge
//! from a node to itself pulls nothing.

use crate::forces::Attraction;
use crate::layout::{edges_ok, Layout, Node, NodeView};
use crate::util::{get_2_mut, zero_is_neutral, Coord, CoordSeq, Edge, VecN};
use vstd::prelude::*;

verus! {

impl Attraction {
    /// Whether the pull grows with the logarithm of the distance
    pub fn is_lin_log(self) -> (b: bool)
        ensures
            b == self.lin_log(),
    {
        match self {
            Attraction::Log | Attraction::LogNoOverlap | Attraction::HubsLog
            | Attraction::HubsLogNoOverlap => true,
            _ => false,
        }
    }

    /// Whether the sizes of the two nodes are taken off the distance
    pub fn is_prevent_overlapping(self) -> (b: bool)
        ensures
            b == self.prevent_overlapping(),
    {
        match self {
            Attraction::NoOverlap | Attraction::LogNoOverlap | Attraction::HubsNoOverlap
            | Attraction::HubsLogNoOverlap => true,
            _ => false,
        }
    }

    /// Whether the pull on the first node of an edge is divided by its mass
    pub fn is_dissuade_hubs(self) -> (b: bool)
        ensures
            b == self.dissuade_hubs(),
    {
        match self {
            Attraction::Hubs | Attraction::HubsLog | Attraction::HubsNoOverlap
            | Attraction::HubsLogNoOverlap => true,
            _ => false,
        }
    }
}

/// The pull of an edge of weight `weight` from `a` toward `b`, or `None`
/// where the edge pulls nothing.
///
/// With `d` the distance and `dv = b.pos - a.pos`:
/// - linear: `dv * ka * weight`;
/// - logarithmic: `dv * (ln(1 + d) / d * ka * weight)`, nothing when the
///   squared distance compares equal to zero;
/// - without overlap: `dv * (gap / d * ka * weight)`, where
///   `gap = d - a.size - b.size`, nothing unless `0 < gap`;
/// - logarithmic without overlap: `dv * (ln(1 + gap) / d * ka * weight)`,
///   nothing unless `0 < gap`.
pub open spec fn edge_pull<T: Coord>(
    kind: Attraction,
    ka: T,
    weight: T,
    a: NodeView<T>,
    b: NodeView<T>,
) -> Option<Seq<T>> {
    let dv = b.pos.vec_minus(a.pos);
    if kind.prevent_overlapping() {
        let d = dv.norm_squared().sqrt_spec();
        let gap = d.minus_spec(a.size).minus_spec(b.size);
        if !T::zero_spec().below_spec(gap) {
            None
        } else if kind.lin_log() {
            Some(dv.scaled(gap.ln_1p_spec().over_spec(d).times_spec(ka).times_spec(weight)))
        } else {
            Some(dv.scaled(gap.over_spec(d).times_spec(ka).times_spec(weight)))
        }
    } else if kind.lin_log() {
        let d2 = dv.norm_squared();
        if d2.equals_spec(T::zero_spec()) {
            None
        } else {
            let d = d2.sqrt_spec();
            Some(dv.scaled(d.ln_1p_spec().over_spec(d).times_spec(ka).times_spec(weight)))
        }
    } else {
        Some(dv.scaled(ka).scaled(weight))
    }
}

/// What the pull `f` of an edge becomes for its first node, of mass `mass`
pub open spec fn first_end_pull<T: Coord>(kind: Attraction, f: Seq<T>, mass: T) -> Seq<T> {
    if kind.dissuade_hubs() {
        f.divided(mass)
    } else {
        f
    }
}

/// The nodes after the pull of one edge. An edge from a node to itself has
/// no length and pulls nothing.
pub open spec fn attract_edge<T: Coord>(
    nodes: Seq<NodeView<T>>,
    edge: (Edge, T),
    kind: Attraction,
    ka: T,
) -> Seq<NodeView<T>> {
    let n1 = edge.0.0 as int;
    let n2 = edge.0.1 as int;
    if n1 == n2 {
        nodes
    } else {
        match edge_pull(kind, ka, edge.1, nodes[n1], nodes[n2]) {
            None => nodes,
            Some(f) => nodes.update(
                n1,
                NodeView {
                    speed: nodes[n1].speed.vec_plus(first_end_pull(kind, f, nodes[n1].mass)),
                    ..nodes[n1]
                },
            ).update(n2, NodeView { speed: nodes[n2].speed.vec_minus(f), ..nodes[n2] }),
        }
    }
}

/// The nodes after the pull of the first `n` edges, taken in order
pub open spec fn attract_upto<T: Coord>(
    nodes: Seq<NodeView<T>>,
    edges: Seq<(Edge, T)>,
    n: nat,
    kind: Attraction,
    ka: T,
) -> Seq<NodeView<T>>
    decreases n,
{
    if n == 0 {
        nodes
    } else {
        attract_edge(attract_upto(nodes, edges, (n - 1) as nat, kind, ka), edges[n - 1], kind, ka)
    }
}

/// What attraction makes of the nodes: the pull of every edge, in order
pub open spec fn attraction_pass<T: Coord>(
    nodes: Seq<NodeView<T>>,
    edges: Seq<(Edge, T)>,
    kind: Attraction,
    ka: T,
) -> Seq<NodeView<T>> {
    attract_upto(nodes, edges, edges.len(), kind, ka)
}

/// The pull of an edge of weight `weight` from `a` toward `b`
pub fn pull_between<T: Coord, const N: usize>(
    kind: Attraction,
    ka: T,
    weight: T,
    a: &Node<T, N>,
    b: &Node<T, N>,
) -> (pull: Option<VecN<T, N>>)
    ensures
        match pull {
            Some(f) => edge_pull(kind, ka, weight, a@, b@) == Some(f@),
            None => edge_pull(kind, ka, weight, a@, b@).is_none(),
        },
{
    let dv = b.pos.minus(a.pos);
    if kind.is_prevent_overlapping() {
        let d = dv.norm_squared().sqrt();
        let gap = d.minus(a.size).minus(b.size);
        if !T::zero().below(gap) {
            None
        } else if kind.is_lin_log() {
            Some(dv.times(gap.ln_1p().over(d).times(ka).times(weight)))
        } else {
            Some(dv.times(gap.over(d).times(ka).times(weight)))
        }
    } else if kind.is_lin_log() {
        let d2 = dv.norm_squared();
        if d2.equals(T::zero()) {
            None
        } else {
            let d = d2.sqrt();
            Some(dv.times(d.ln_1p().over(d).times(ka).times(weight)))
        }
    } else {
        Some(dv.times(ka).times(weight))
    }
}

/// The attraction of every edge, by the variant `kind`
pub fn attract<T: Coord, const N: usize>(layout: &mut Layout<T, N>, kind: Attraction)
    requires
        edges_ok(old(layout).edges@, old(layout).nodes@.len()),
    ensures
        final(layout).same_graph(*old(layout)),
        final(layout).tree == old(layout).tree,
        final(layout).nodes@.len() == old(layout).nodes@.len(),
        final(layout).views() == attraction_pass(
            old(layout).views(),
            old(layout).edges@,
            kind,
            old(layout).settings.ka,
        ),
{
    let ka = layout.settings.ka;
    let hubs = kind.is_dissuade_hubs();
    let mut i: usize = 0;
    assert(layout.views() =~= old(layout).views());
    while i < layout.edges.len()
        invariant
            i <= layout.edges@.len(),
            layout.same_graph(*old(layout)),
            layout.tree == old(layout).tree,
            ka == old(layout).settings.ka,
            hubs == kind.dissuade_hubs(),
            layout.nodes@.len() == old(layout).nodes@.len(),
            edges_ok(layout.edges@, layout.nodes@.len()),
            layout.views() == attract_upto(
                old(layout).views(),
                old(layout).edges@,
                i as nat,
                kind,
                ka,
            ),
        decreases layout.edges@.len() - i,
    {
        let edge = layout.edges[i];
        let n1 = edge.0.0;
        let n2 = edge.0.1;
        let weight = edge.1;
        let ghost before = layout.views();
        if n1 < n2 {
            let (a, b) = get_2_mut(layout.nodes.as_mut_slice(), n1, n2);
            match pull_between(kind, ka, weight, a, b) {
                Some(f) => {
                    let f1 = if hubs {
                        f.over(a.mass)
                    } else {
                        f
                    };
                    a.speed = a.speed.plus(f1);
                    b.speed = b.speed.minus(f);
                },
                None => {},
            }
        }
        assert(layout.views() =~= attract_edge(before, edge, kind, ka));
        i += 1;
    }
}

/// Linear attraction
pub fn apply_attraction<T: Coord, const N: usize>(layout: &mut Layout<T, N>)
    requires
        edges_ok(old(layout).edges@, old(layout).nodes@.len()),
    ensures
        final(layout).same_graph(*old(layout)),
        final(layout).tree == old(layout).tree,
        final(layout).nodes@.len() == old(layout).nodes@.len(),
        final(layout).views() == attraction_pass(
            old(layout).views(),
            old(layout).edges@,
            Attraction::Linear,
            old(layout).settings.ka,
        ),
{
    attract(layout, Attraction::Linear)
}

/// Logarithmic attraction
pub fn apply_attraction_log<T: Coord, const N: usize>(layout: &mut Layout<T, N>)
    requires
        edges_ok(old(layout).edges@, old(layout).nodes@.len()),
    ensures
        final(layout).same_graph(*old(layout)),
        final(layout).tree == old(layout).tree,
        final(layout).nodes@.len() == old(layout).nodes@.len(),
        final(layout).views() == attraction_pass(
            old(layout).views(),
            old(layout).edges@,
            Attraction::Log,
            old(layout).settings.ka,
        ),
{
    attract(layout, Attraction::Log)
}

/// Linear attraction between the discs of the nodes
pub fn apply_attraction_po<T: Coord, const N: usize>(layout: &mut Layout<T, N>)
    requires
        edges_ok(old(layout).edges@, old(layout).nodes@.len()),
    ensures
        final(layout).same_graph(*old(layout)),
        final(layout).tree == old(layout).tree,
        final(layout).nodes@.len() == old(layout).nodes@.len(),
        final(layout).views() == attraction_pass(
            old(layout).views(),
            old(layout).edges@,
            Attraction::NoOverlap,
            old(layout).settings.ka,
        ),
{
    attract(layout, Attraction::NoOverlap)
}

/// Logarithmic attraction between the discs of the nodes
pub fn apply_attraction_log_po<T: Coord, const N: usize>(layout: &mut Layout<T, N>)
    requires
        edges_ok(old(layout).edges@, old(layout).nodes@.len()),
    ensures
        final(layout).same_graph(*old(layout)),
        final(layout).tree == old(layout).tree,
        final(layout).nodes@.len() == old(layout).nodes@.len(),
        final(layout).views() == attraction_pass(
            old(layout).views(),
            old(layout).edges@,
            Attraction::LogNoOverlap,
            old(layout).settings.ka,
        ),
{
    attract(layout, Attraction::LogNoOverlap)
}

/// Linear attraction that spares hubs
pub fn apply_attraction_dh<T: Coord, const N: usize>(layout: &mut Layout<T, N>)
    requires
        edges_ok(old(layout).edges@, old(layout).nodes@.len()),
    ensures
        final(layout).same_graph(*old(layout)),
        final(layout).tree == old(layout).tree,
        final(layout).nodes@.len() == old(layout).nodes@.len(),
        final(layout).views() == attraction_pass(
            old(layout).views(),
            old(layout).edges@,
            Attraction::Hubs,
            old(layout).settings.ka,
        ),
{
    attract(layout, Attraction::Hubs)
}

/// Logarithmic attraction that spares hubs
pub fn apply_attraction_dh_log<T: Coord, const N: usize>(layout: &mut Layout<T, N>)
    requires
        edges_ok(old(layout).edges@, old(layout).nodes@.len()),
    ensures
        final(layout).same_graph(*old(layout)),
        final(layout).tree == old(layout).tree,
        final(layout).nodes@.len() == old(layout).nodes@.len(),
        final(layout).views() == attraction_pass(
            old(layout).views(),
            old(layout).edges@,
            Attraction::HubsLog,
            old(layout).settings.ka,
        ),
{
    attract(layout, Attraction::HubsLog)
}

/// Linear attraction between the discs of the nodes that spares hubs
pub fn apply_attraction_dh_po<T: Coord, const N: usize>(layout: &mut Layout<T, N>)
    requires
        edges_ok(old(layout).edges@, old(layout).nodes@.len()),
    ensures
        final(layout).same_graph(*old(layout)),
        final(layout).tree == old(layout).tree,
        final(layout).nodes@.len() == old(layout).nodes@.len(),
        final(layout).views() == attraction_pass(
            old(layout).views(),
            old(layout).edges@,
            Attraction::HubsNoOverlap,
            old(layout).settings.ka,
        ),
{
    attract(layout, Attraction::HubsNoOverlap)
}

/// Logarithmic attraction between the discs of the nodes that spares hubs
pub fn apply_attraction_dh_log_po<T: Coord, const N: usize>(layout: &mut Layout<T, N>)
    requires
        edges_ok(old(layout).edges@, old(layout).nodes@.len()),
    ensures
        final(layout).same_graph(*old(layout)),
        final(layout).tree == old(layout).tree,
        final(layout).nodes@.len() == old(layout).nodes@.len(),
        final(layout).views() == attraction_pass(
            old(layout).views(),
            old(layout).edges@,
            Attraction::HubsLogNoOverlap,
            old(layout).settings.ka,
        ),
{
    attract(layout, Attraction::HubsLogNoOverlap)
}

/// What an edge gives to one end it takes from the other: the speed of the
/// second end loses exactly the pull `f` that the speed of the first end
/// gains (divided by the mass of the first end where hubs are spared), and
/// nothing else changes. An edge that pulls nothing changes nothing.
pub proof fn lemma_edge_pull_is_mutual<T: Coord>(
    nodes: Seq<NodeView<T>>,
    edge: (Edge, T),
    kind: Attraction,
    ka: T,
)
    requires
        edge.0.0 < edge.0.1 < nodes.len(),
    ensures
        ({
            let n1 = edge.0.0 as int;
            let n2 = edge.0.1 as int;
            let after = attract_edge(nodes, edge, kind, ka);
            match edge_pull(kind, ka, edge.1, nodes[n1], nodes[n2]) {
                None => after == nodes,
                Some(f) => {
                    &&& after.len() == nodes.len()
                    &&& after[n1] == (NodeView {
                        speed: nodes[n1].speed.vec_plus(first_end_pull(kind, f, nodes[n1].mass)),
                        ..nodes[n1]
                    })
                    &&& after[n2] == (NodeView {
                        speed: nodes[n2].speed.vec_minus(f),
                        ..nodes[n2]
                    })
                    &&& forall|j: int|
                        0 <= j < nodes.len() && j != n1 && j != n2 ==> after[j] == nodes[j]
                },
            }
        }),
{
}

/// Whether taking `x` from zero gives what compares equal to the opposite
/// of adding it to zero, in every coordinate: `0 + x == -(0 - x)`
pub open spec fn has_opposite<T: Coord>(x: Seq<T>) -> bool {
    forall|i: int|
        0 <= i < x.len() ==> T::zero_spec().plus_spec(#[trigger] x[i]).equals_spec(
            T::zero_spec().minus_spec(x[i]).negated_spec(),
        )
}

/// Momentum conservation on an isolated edge: two nodes at rest that one
/// edge joins have opposite speeds after an attraction pass,
/// `speed[a] == -speed[b]` as the scalar compares, for every variant that
/// does not spare hubs.
///
/// The pull must have an opposite (see [`has_opposite`]); where the edge
/// pulls nothing, zero must compare equal to its own opposite.
pub proof fn lemma_isolated_edge_momentum<T: Coord>(
    a: NodeView<T>,
    b: NodeView<T>,
    weight: T,
    kind: Attraction,
    ka: T,
)
    requires
        a.pos.len() == b.pos.len(),
        a.speed == Seq::<T>::zeros(a.pos.len()),
        b.speed == Seq::<T>::zeros(a.pos.len()),
        !kind.dissuade_hubs(),
        match edge_pull(kind, ka, weight, a, b) {
            Some(f) => has_opposite(f),
            None => T::zero_spec().equals_spec(T::zero_spec().negated_spec()),
        },
    ensures
        ({
            let after = attraction_pass(seq![a, b], seq![((0usize, 1usize), weight)], kind, ka);
            after.len() == 2 && after[0].speed.vec_equals(after[1].speed.vec_negated())
        }),
{
    let nodes = seq![a, b];
    let edges = seq![((0usize, 1usize), weight)];
    assert(attract_upto(nodes, edges, 0, kind, ka) == nodes);
    assert(attraction_pass(nodes, edges, kind, ka) == attract_edge(nodes, edges[0], kind, ka)) by {
        reveal_with_fuel(attract_upto, 2);
    }
    let after = attract_edge(nodes, edges[0], kind, ka);
    lemma_edge_pull_is_mutual(nodes, edges[0], kind, ka);
    match edge_pull(kind, ka, weight, a, b) {
        Some(f) => {
            assert(f.len() == a.pos.len());
            assert forall|i: int| 0 <= i < after[0].speed.len() implies (
            #[trigger] after[0].speed[i]).equals_spec(after[1].speed.vec_negated()[i]) by {
                assert(T::zero_spec().plus_spec(f[i]).equals_spec(
                    T::zero_spec().minus_spec(f[i]).negated_spec(),
                ));
            }
        },
        None => {},
    }
}

/// The closed form on an isolated edge: of two nodes at rest that one edge
/// joins, the first ends an attraction pass with the pull of the edge as
/// its speed and the second with the opposite of it, and nothing else
/// changes; where the edge pulls nothing, both stay at rest. This holds
/// for every variant that does not spare hubs, and of every pull for
/// whose coordinates zero is neutral (see [`zero_is_neutral`]).
pub proof fn lemma_isolated_edge_closed_form<T: Coord>(
    a: NodeView<T>,
    b: NodeView<T>,
    weight: T,
    kind: Attraction,
    ka: T,
)
    requires
        a.pos.len() == b.pos.len(),
        a.speed == Seq::<T>::zeros(a.pos.len()),
        b.speed == Seq::<T>::zeros(a.pos.len()),
        !kind.dissuade_hubs(),
        edge_pull(kind, ka, weight, a, b) matches Some(f) ==> zero_is_neutral(f),
    ensures
        ({
            let after = attraction_pass(seq![a, b], seq![((0usize, 1usize), weight)], kind, ka);
            match edge_pull(kind, ka, weight, a, b) {
                Some(f) => after == seq![
                    (NodeView { speed: f, ..a }),
                    (NodeView { speed: f.vec_negated(), ..b }),
                ],
                None => after == seq![a, b],
            }
        }),
{
    let nodes = seq![a, b];
    let edges = seq![((0usize, 1usize), weight)];
    assert(attract_upto(nodes, edges, 0, kind, ka) == nodes);
    assert(attraction_pass(nodes, edges, kind, ka) == attract_edge(nodes, edges[0], kind, ka)) by {
        reveal_with_fuel(attract_upto, 2);
    }
    let after = attract_edge(nodes, edges[0], kind, ka);
    lemma_edge_pull_is_mutual(nodes, edges[0], kind, ka);
    match edge_pull(kind, ka, weight, a, b) {
        Some(f) => {
            assert(f.len() == a.pos.len());
            assert(after[0].speed =~= f);
            assert(after[1].speed =~= f.vec_negated());
            assert(after =~= seq![
                (NodeView { speed: f, ..a }),
                (NodeView { speed: f.vec_negated(), ..b }),
            ]);
        },
        None => {},
    }
}

} // verus!
