//! Repulsion: every node is pushed away from all others, through a
//! Barnes-Hut tree built over the nodes.
//!
//! The tree spans the bounding box of the positions and holds one body a
//! node, of the node's mass plus one, which carries the node's size. Each
//! node then asks the tree for the push on its own position.

use crate::forces::Repulsion;
use crate::layout::{views_of, Layout, Node, NodeView, Settings};
use crate::trees::{
    child_index, lemma_child_index_bound, lemma_lone_term_is_the_sum,
    lemma_two_bodies_push_pairwise, seen_apart, sum_of, Body, BodyModel, ForceLaw, Tree,
    TreeModel,
};
use crate::util::{zero_is_neutral, Coord, CoordSeq, VecN};
use vstd::arithmetic::power2::pow2;
use vstd::prelude::*;

verus! {

/// The body that stands for a node in the tree
pub struct NodeBodyN<T, C, const N: usize> {
    /// Position
    pub pos: VecN<T, N>,
    /// Mass
    pub mass: T,
    /// Custom value
    pub custom: C,
}

/// Body in the plane
pub type NodeBody2<T, C> = NodeBodyN<T, C, 2>;

/// Body in space
pub type NodeBody3<T, C> = NodeBodyN<T, C, 3>;

impl<T: Coord, C: Copy, const N: usize> Body<T, N> for NodeBodyN<T, C, N> {
    type Custom = C;

    open spec fn model(&self) -> BodyModel<T, C> {
        BodyModel { pos: self.pos@, mass: self.mass, custom: self.custom }
    }

    fn mass(&self) -> (m: T) {
        self.mass
    }

    fn pos(&self) -> (p: VecN<T, N>) {
        self.pos
    }

    fn add_mass(&mut self, mass: T, pos: VecN<T, N>) {
        if !self.pos.equals(&pos) {
            self.pos = self.pos.times(self.mass).plus(pos.times(mass)).over(self.mass.plus(mass));
        }
        self.mass = self.mass.plus(mass);
    }

    fn custom(&self) -> (c: C) {
        self.custom
    }
}

/// The push of a mass `mass` at `center` on a point at `on`, inverse to
/// `dist`: `(center - on) * mass / dist`
pub open spec fn inverse_push<T: Coord>(center: Seq<T>, on: Seq<T>, mass: T, dist: T) -> Seq<T> {
    center.vec_minus(on).scaled(mass).divided(dist)
}

/// Repulsion inverse to the distance, for single bodies and clusters alike
pub struct InverseDistance;

impl<T: Coord, C, const N: usize> ForceLaw<T, C, N> for InverseDistance {
    open spec fn far_spec(&self, center: Seq<T>, on: Seq<T>, mass: T, dist: T, custom: C) -> Seq<
        T,
    > {
        inverse_push(center, on, mass, dist)
    }

    fn far(&self, center: VecN<T, N>, on: VecN<T, N>, mass: T, dist: T, custom: C) -> (f: VecN<
        T,
        N,
    >) {
        center.minus(on).times(mass).over(dist)
    }

    open spec fn near_spec(
        &self,
        center: Seq<T>,
        on: Seq<T>,
        mass: T,
        dist: T,
        custom: C,
        body_custom: C,
    ) -> Seq<T> {
        inverse_push(center, on, mass, dist)
    }

    fn near(
        &self,
        center: VecN<T, N>,
        on: VecN<T, N>,
        mass: T,
        dist: T,
        custom: C,
        body_custom: C,
    ) -> (f: VecN<T, N>) {
        center.minus(on).times(mass).over(dist)
    }
}

/// Repulsion between discs: the custom value of a body is its radius. A
/// single body pushes inversely to the gap between the two discs, and by
/// the constant `kr_prime` once the gap is no longer positive. A cluster
/// pushes inversely to the distance.
pub struct NoOverlap<T> {
    /// The push between two discs that touch, relative to the repulsion
    /// coefficient
    pub kr_prime: T,
}

impl<T: Coord, const N: usize> ForceLaw<T, T, N> for NoOverlap<T> {
    open spec fn far_spec(&self, center: Seq<T>, on: Seq<T>, mass: T, dist: T, custom: T) -> Seq<
        T,
    > {
        inverse_push(center, on, mass, dist)
    }

    fn far(&self, center: VecN<T, N>, on: VecN<T, N>, mass: T, dist: T, custom: T) -> (f: VecN<
        T,
        N,
    >) {
        center.minus(on).times(mass).over(dist)
    }

    open spec fn near_spec(
        &self,
        center: Seq<T>,
        on: Seq<T>,
        mass: T,
        dist: T,
        custom: T,
        body_custom: T,
    ) -> Seq<T> {
        let gap = dist.minus_spec(custom).minus_spec(body_custom);
        if T::zero_spec().below_spec(gap) {
            inverse_push(center, on, mass, gap)
        } else {
            center.vec_minus(on).scaled(mass).scaled(self.kr_prime)
        }
    }

    fn near(
        &self,
        center: VecN<T, N>,
        on: VecN<T, N>,
        mass: T,
        dist: T,
        custom: T,
        body_custom: T,
    ) -> (f: VecN<T, N>) {
        let gap = dist.minus(custom).minus(body_custom);
        if T::zero().below(gap) {
            center.minus(on).times(mass).over(gap)
        } else {
            center.minus(on).times(mass).times(self.kr_prime)
        }
    }
}

/// The box `(lo, hi)` stretched to hold `p`. On each axis the lower bound
/// gives way first; the upper bound is looked at only where the lower one
/// held.
pub open spec fn stretched<T: Coord>(lo: Seq<T>, hi: Seq<T>, p: Seq<T>) -> (Seq<T>, Seq<T>) {
    (
        Seq::new(
            lo.len(),
            |i: int|
                if p[i].below_spec(lo[i]) {
                    p[i]
                } else {
                    lo[i]
                },
        ),
        Seq::new(
            hi.len(),
            |i: int|
                if !p[i].below_spec(lo[i]) && hi[i].below_spec(p[i]) {
                    p[i]
                } else {
                    hi[i]
                },
        ),
    )
}

/// The bounding box of the positions of the first `n` nodes: that of the
/// first node, stretched by each further one in turn
pub open spec fn bounds_upto<T: Coord>(nodes: Seq<NodeView<T>>, n: nat) -> (Seq<T>, Seq<T>)
    decreases n,
{
    if n <= 1 {
        (nodes[0].pos, nodes[0].pos)
    } else {
        let (lo, hi) = bounds_upto(nodes, (n - 1) as nat);
        stretched(lo, hi, nodes[n - 1].pos)
    }
}

/// The body that stands for a node in the tree: at the node's position, of
/// its mass plus one, carrying its size
pub open spec fn body_of<T: Coord>(node: NodeView<T>) -> BodyModel<T, T> {
    BodyModel { pos: node.pos, mass: node.mass.plus_spec(T::one_spec()), custom: node.size }
}

/// The tree over the bounding box of all nodes that holds the first `n` of
/// them, inserted in order
pub open spec fn tree_upto<T: Coord>(nodes: Seq<NodeView<T>>, n: nat) -> TreeModel<T, T>
    decreases n,
{
    if n == 0 {
        let (lo, hi) = bounds_upto(nodes, nodes.len());
        TreeModel::Leaf { body: None, lo, hi }
    } else {
        tree_upto(nodes, (n - 1) as nat).add_body(body_of(nodes[n - 1]), 0)
    }
}

/// The tree of all nodes
pub open spec fn tree_of<T: Coord>(nodes: Seq<NodeView<T>>) -> TreeModel<T, T> {
    tree_upto(nodes, nodes.len())
}

impl<T: Coord> NodeView<T> {
    /// The node after the push of `tree`: its speed less the force of the
    /// tree on its position, times `kr`, times its mass plus one
    pub open spec fn pushed<F: ForceLaw<T, T, N>, const N: usize>(
        self,
        tree: TreeModel<T, T>,
        theta: T,
        kr: T,
        law: F,
    ) -> Self {
        NodeView {
            speed: self.speed.vec_minus(
                tree.apply::<F, N>(self.pos, theta, self.size, law).scaled(kr).scaled(
                    self.mass.plus_spec(T::one_spec()),
                ),
            ),
            ..self
        }
    }
}

impl<T: Coord> NodeView<T> {
    /// The node after the push of `tree` by the repulsion of the given
    /// kind. Between discs, the push of two that touch is
    /// `prevent_overlapping / kr`.
    pub open spec fn pushed_by<const N: usize>(
        self,
        tree: TreeModel<T, T>,
        kind: Repulsion,
        settings: Settings<T>,
    ) -> Self {
        match kind {
            Repulsion::Plain => self.pushed::<InverseDistance, N>(
                tree,
                settings.theta,
                settings.kr,
                InverseDistance,
            ),
            Repulsion::NoOverlap => self.pushed::<NoOverlap<T>, N>(
                tree,
                settings.theta,
                settings.kr,
                NoOverlap {
                    kr_prime: settings.prevent_overlapping.unwrap().over_spec(settings.kr),
                },
            ),
        }
    }
}

/// What repulsion of the given kind makes of the nodes: each is pushed by
/// the tree of all
pub open spec fn repulsion_by<T: Coord, const N: usize>(
    nodes: Seq<NodeView<T>>,
    kind: Repulsion,
    settings: Settings<T>,
) -> Seq<NodeView<T>> {
    Seq::new(nodes.len(), |i: int| nodes[i].pushed_by::<N>(tree_of(nodes), kind, settings))
}

/// What repulsion by the law `law` makes of the nodes: each is pushed by
/// the tree of all
pub open spec fn repulsion_pass<T: Coord, F: ForceLaw<T, T, N>, const N: usize>(
    nodes: Seq<NodeView<T>>,
    theta: T,
    kr: T,
    law: F,
) -> Seq<NodeView<T>> {
    Seq::new(nodes.len(), |i: int| nodes[i].pushed::<F, N>(tree_of(nodes), theta, kr, law))
}

/// The bounding box of the positions of `nodes`
pub fn bounding_box<T: Coord, const N: usize>(nodes: &Vec<Node<T, N>>) -> (corners: (
    VecN<T, N>,
    VecN<T, N>,
))
    requires
        nodes@.len() > 0,
    ensures
        (corners.0@, corners.1@) == bounds_upto(views_of(nodes@), nodes@.len()),
{
    let mut lo = nodes[0].pos;
    let mut hi = nodes[0].pos;
    let mut i: usize = 1;
    while i < nodes.len()
        invariant
            1 <= i <= nodes@.len(),
            (lo@, hi@) == bounds_upto(views_of(nodes@), i as nat),
        decreases nodes@.len() - i,
    {
        let p = nodes[i].pos;
        let ghost lo_before = lo@;
        let ghost hi_before = hi@;
        let mut axis: usize = 0;
        while axis < N
            invariant
                axis <= N,
                forall|j: int|
                    0 <= j < axis ==> lo@[j] == stretched(lo_before, hi_before, p@).0[j],
                forall|j: int|
                    0 <= j < axis ==> hi@[j] == stretched(lo_before, hi_before, p@).1[j],
                forall|j: int| axis <= j < N ==> lo@[j] == lo_before[j],
                forall|j: int| axis <= j < N ==> hi@[j] == hi_before[j],
                lo_before.len() == N,
                hi_before.len() == N,
            decreases N - axis,
        {
            let val = p.0[axis];
            let ghost lo_now = lo@;
            let ghost hi_now = hi@;
            if val.below(lo.0[axis]) {
                lo.0[axis] = val;
            } else if hi.0[axis].below(val) {
                hi.0[axis] = val;
            }
            assert(forall|j: int| 0 <= j < N && j != axis ==> lo@[j] == lo_now[j]);
            assert(forall|j: int| 0 <= j < N && j != axis ==> hi@[j] == hi_now[j]);
            axis += 1;
        }
        assert(lo@ =~= stretched(lo_before, hi_before, p@).0);
        assert(hi@ =~= stretched(lo_before, hi_before, p@).1);
        i += 1;
    }
    (lo, hi)
}

/// Build the tree of all of `nodes` in the arena `tree`. The tree that the
/// arena held is gone.
pub fn build_tree<T: Coord, const N: usize>(
    nodes: &Vec<Node<T, N>>,
    tree: &mut Tree<T, NodeBodyN<T, T, N>, N>,
)
    requires
        0 < N < 32,
        nodes@.len() > 0,
    ensures
        final(tree).wf(),
        final(tree).model() == tree_of(views_of(nodes@)),
{
    tree.new_root(bounding_box(nodes));
    let mut i: usize = 0;
    while i < nodes.len()
        invariant
            0 < N < 32,
            i <= nodes@.len(),
            tree.wf(),
            tree.model() == tree_upto(views_of(nodes@), i as nat),
        decreases nodes@.len() - i,
    {
        let node = &nodes[i];
        tree.add_body(
            NodeBodyN { pos: node.pos, mass: node.mass.plus(T::one()), custom: node.size },
        );
        i += 1;
    }
}

impl<T: Coord, const N: usize> Node<T, N> {
    /// The push of `tree` on one node
    pub fn push<F: ForceLaw<T, T, N>>(
        &mut self,
        tree: &Tree<T, NodeBodyN<T, T, N>, N>,
        theta: T,
        kr: T,
        law: &F,
    )
        requires
            0 < N < 32,
            tree.wf(),
        ensures
            final(self)@ == old(self)@.pushed::<F, N>(tree.model(), theta, kr, *law),
    {
        let f = tree.apply(self.pos, theta, self.size, law).times(kr).times(
            self.mass.plus(T::one()),
        );
        self.speed = self.speed.minus(f);
    }
}

impl<T: Coord, const N: usize> Node<T, N> {
    /// The push of `tree` on one node, by the repulsion of the given kind
    pub fn push_by(
        &mut self,
        tree: &Tree<T, NodeBodyN<T, T, N>, N>,
        kind: Repulsion,
        settings: &Settings<T>,
    )
        requires
            0 < N < 32,
            tree.wf(),
            kind == Repulsion::NoOverlap ==> settings.prevent_overlapping.is_some(),
        ensures
            final(self)@ == old(self)@.pushed_by::<N>(tree.model(), kind, *settings),
    {
        match kind {
            Repulsion::Plain => self.push(tree, settings.theta, settings.kr, &InverseDistance),
            Repulsion::NoOverlap => {
                let kr_prime = settings.prevent_overlapping.unwrap().over(settings.kr);
                self.push(tree, settings.theta, settings.kr, &NoOverlap { kr_prime })
            },
        }
    }
}

/// Repulsion by the law `law`, on every node. The tree is built in the
/// arena of the layout, and discarded when every node has asked it.
pub fn repulse<T: Coord, F: ForceLaw<T, T, N>, const N: usize>(
    layout: &mut Layout<T, N>,
    law: &F,
)
    requires
        0 < N < 32,
    ensures
        final(layout).same_graph(*old(layout)),
        final(layout).nodes@.len() == old(layout).nodes@.len(),
        final(layout).tree.nodes@.len() == 0,
        final(layout).views() == repulsion_pass::<T, F, N>(
            old(layout).views(),
            old(layout).settings.theta,
            old(layout).settings.kr,
            *law,
        ),
{
    if layout.nodes.len() == 0 {
        layout.tree.clear();
        assert(layout.views() =~= repulsion_pass::<T, F, N>(
            old(layout).views(),
            old(layout).settings.theta,
            old(layout).settings.kr,
            *law,
        ));
        return ;
    }
    build_tree(&layout.nodes, &mut layout.tree);
    let kr = layout.settings.kr;
    let theta = layout.settings.theta;
    let mut i: usize = 0;
    while i < layout.nodes.len()
        invariant
            0 < N < 32,
            i <= layout.nodes@.len(),
            layout.same_graph(*old(layout)),
            layout.nodes@.len() == old(layout).nodes@.len(),
            layout.tree.wf(),
            layout.tree.model() == tree_of(old(layout).views()),
            forall|j: int|
                0 <= j < i ==> (#[trigger] layout.nodes@[j])@ == old(layout).nodes@[j]@.pushed::<
                    F,
                    N,
                >(layout.tree.model(), theta, kr, *law),
            forall|j: int|
                i <= j < layout.nodes@.len() ==> layout.nodes@[j] == old(layout).nodes@[j],
        decreases layout.nodes@.len() - i,
    {
        layout.nodes[i].push(&layout.tree, theta, kr, law);
        i += 1;
    }
    assert(layout.views() =~= repulsion_pass::<T, F, N>(old(layout).views(), theta, kr, *law));
    layout.tree.clear();
}

/// Repulsion in the plane, inverse to the distance
pub fn apply_repulsion_2d<T: Coord>(layout: &mut Layout<T, 2>)
    ensures
        final(layout).same_graph(*old(layout)),
        final(layout).nodes@.len() == old(layout).nodes@.len(),
        final(layout).tree.nodes@.len() == 0,
        final(layout).views() == repulsion_pass::<T, InverseDistance, 2>(
            old(layout).views(),
            old(layout).settings.theta,
            old(layout).settings.kr,
            InverseDistance,
        ),
{
    repulse(layout, &InverseDistance)
}

/// Repulsion in the plane between discs. The push between discs that
/// touch is `prevent_overlapping / kr`.
pub fn apply_repulsion_2d_po<T: Coord>(layout: &mut Layout<T, 2>)
    requires
        old(layout).settings.prevent_overlapping.is_some(),
    ensures
        final(layout).same_graph(*old(layout)),
        final(layout).nodes@.len() == old(layout).nodes@.len(),
        final(layout).tree.nodes@.len() == 0,
        final(layout).views() == repulsion_pass::<T, NoOverlap<T>, 2>(
            old(layout).views(),
            old(layout).settings.theta,
            old(layout).settings.kr,
            (NoOverlap {
                kr_prime: old(layout).settings.prevent_overlapping.unwrap().over_spec(
                    old(layout).settings.kr,
                ),
            }),
        ),
{
    let kr_prime = layout.settings.prevent_overlapping.unwrap().over(layout.settings.kr);
    repulse(layout, &NoOverlap { kr_prime })
}

/// Repulsion in space, inverse to the distance
pub fn apply_repulsion_3d<T: Coord>(layout: &mut Layout<T, 3>)
    ensures
        final(layout).same_graph(*old(layout)),
        final(layout).nodes@.len() == old(layout).nodes@.len(),
        final(layout).tree.nodes@.len() == 0,
        final(layout).views() == repulsion_pass::<T, InverseDistance, 3>(
            old(layout).views(),
            old(layout).settings.theta,
            old(layout).settings.kr,
            InverseDistance,
        ),
{
    repulse(layout, &InverseDistance)
}

/// Repulsion in space between balls. The push between balls that touch is
/// `prevent_overlapping / kr`.
pub fn apply_repulsion_3d_po<T: Coord>(layout: &mut Layout<T, 3>)
    requires
        old(layout).settings.prevent_overlapping.is_some(),
    ensures
        final(layout).same_graph(*old(layout)),
        final(layout).nodes@.len() == old(layout).nodes@.len(),
        final(layout).tree.nodes@.len() == 0,
        final(layout).views() == repulsion_pass::<T, NoOverlap<T>, 3>(
            old(layout).views(),
            old(layout).settings.theta,
            old(layout).settings.kr,
            (NoOverlap {
                kr_prime: old(layout).settings.prevent_overlapping.unwrap().over_spec(
                    old(layout).settings.kr,
                ),
            }),
        ),
{
    let kr_prime = layout.settings.prevent_overlapping.unwrap().over(layout.settings.kr);
    repulse(layout, &NoOverlap { kr_prime })
}

/// The push of the node `other` alone on the node `me`, by the law for a
/// single body
pub open spec fn pair_push<T: Coord, F: ForceLaw<T, T, N>, const N: usize>(
    me: NodeView<T>,
    other: NodeView<T>,
    law: F,
) -> Seq<T> {
    law.near_spec(
        other.pos,
        me.pos,
        other.mass.plus_spec(T::one_spec()),
        me.pos.distance(other.pos),
        me.size,
        other.size,
    )
}

/// Repulsion between exactly two nodes, by exact traversal: where one of
/// them (the first where `first`, else the second) sees the other as it is
/// (see [`seen_apart`]), its speed loses the closed-form push of the other
/// alone, times `kr`, times its own mass plus one. The push stands, in the
/// sum over the children of the root, in the place of the child that holds
/// the other node; all other terms are zero vectors.
pub proof fn lemma_two_nodes_repel_pairwise<T: Coord, F: ForceLaw<T, T, N>, const N: usize>(
    a: NodeView<T>,
    b: NodeView<T>,
    first: bool,
    theta: T,
    kr: T,
    law: F,
)
    requires
        a.pos.len() == N,
        b.pos.len() == N,
        seen_apart(
            bounds_upto(seq![a, b], 2).0,
            bounds_upto(seq![a, b], 2).1,
            body_of(a),
            body_of(b),
            first,
            theta,
        ),
    ensures
        ({
            let (lo, hi) = bounds_upto(seq![a, b], 2);
            let center = TreeModel::<T, T>::subdivided(lo, hi)->center;
            let me = if first {
                a
            } else {
                b
            };
            let other = if first {
                b
            } else {
                a
            };
            let force = sum_of(
                Seq::new(
                    pow2(N as nat),
                    |k: int|
                        if k == child_index(other.pos, center, 0) {
                            pair_push::<T, F, N>(me, other, law)
                        } else {
                            Seq::<T>::zeros(N as nat)
                        },
                ),
                pow2(N as nat),
                N as nat,
            );
            repulsion_pass::<T, F, N>(seq![a, b], theta, kr, law)[if first {
                0int
            } else {
                1int
            }] == (NodeView {
                speed: me.speed.vec_minus(
                    force.scaled(kr).scaled(me.mass.plus_spec(T::one_spec())),
                ),
                ..me
            })
        }),
{
    let nodes = seq![a, b];
    let (lo, hi) = bounds_upto(nodes, 2);
    assert(bounds_upto(nodes, 1) == (a.pos, a.pos));
    assert(lo.len() == N && hi.len() == N);
    assert(tree_of(nodes) == (TreeModel::Leaf { body: None, lo, hi }).add_body(
        body_of(a),
        0,
    ).add_body(body_of(b), 0)) by {
        reveal_with_fuel(tree_upto, 3);
    }
    let me = if first {
        a
    } else {
        b
    };
    lemma_two_bodies_push_pairwise::<T, T, F, N>(
        lo,
        hi,
        body_of(a),
        body_of(b),
        first,
        theta,
        me.size,
        law,
    );
}

/// The closed form of the repulsion between exactly two nodes, by exact
/// traversal: where one of them (the first where `first`, else the second)
/// sees the other as it is (see [`seen_apart`]), its speed loses the push
/// of the other alone, by the law for a single body, times `kr`, times its
/// own mass plus one. This holds of every push for whose coordinates zero
/// is neutral (see [`zero_is_neutral`]).
pub proof fn lemma_two_nodes_repel_closed_form<T: Coord, F: ForceLaw<T, T, N>, const N: usize>(
    a: NodeView<T>,
    b: NodeView<T>,
    first: bool,
    theta: T,
    kr: T,
    law: F,
)
    requires
        a.pos.len() == N,
        b.pos.len() == N,
        seen_apart(
            bounds_upto(seq![a, b], 2).0,
            bounds_upto(seq![a, b], 2).1,
            body_of(a),
            body_of(b),
            first,
            theta,
        ),
        ({
            let push = if first {
                pair_push::<T, F, N>(a, b, law)
            } else {
                pair_push::<T, F, N>(b, a, law)
            };
            push.len() == N && zero_is_neutral(push)
        }),
        zero_is_neutral(Seq::<T>::zeros(N as nat)),
    ensures
        first ==> repulsion_pass::<T, F, N>(seq![a, b], theta, kr, law)[0] == (NodeView {
            speed: a.speed.vec_minus(
                pair_push::<T, F, N>(a, b, law).scaled(kr).scaled(
                    a.mass.plus_spec(T::one_spec()),
                ),
            ),
            ..a
        }),
        !first ==> repulsion_pass::<T, F, N>(seq![a, b], theta, kr, law)[1] == (NodeView {
            speed: b.speed.vec_minus(
                pair_push::<T, F, N>(b, a, law).scaled(kr).scaled(
                    b.mass.plus_spec(T::one_spec()),
                ),
            ),
            ..b
        }),
{
    let (lo, hi) = bounds_upto(seq![a, b], 2);
    assert(bounds_upto(seq![a, b], 1) == (a.pos, a.pos));
    let center = TreeModel::<T, T>::subdivided(lo, hi)->center;
    let me = if first {
        a
    } else {
        b
    };
    let other = if first {
        b
    } else {
        a
    };
    let place = child_index(other.pos, center, 0) as int;
    let terms = Seq::new(
        pow2(N as nat),
        |k: int|
            if k == child_index(other.pos, center, 0) {
                pair_push::<T, F, N>(me, other, law)
            } else {
                Seq::<T>::zeros(N as nat)
            },
    );
    lemma_two_nodes_repel_pairwise::<T, F, N>(a, b, first, theta, kr, law);
    lemma_child_index_bound(other.pos, center, 0);
    lemma_lone_term_is_the_sum(terms, place, pow2(N as nat), N as nat);
}

/// Coincident positions are safe: two nodes whose positions compare equal,
/// each to itself and to the other, and whose squared distance is below
/// one, are one body of the tree, at the position of the first, and the
/// tree pushes neither of them: its force on each is the zero vector.
pub proof fn lemma_coincident_nodes_do_not_push<T: Coord, F: ForceLaw<T, T, N>, const N: usize>(
    a: NodeView<T>,
    b: NodeView<T>,
    theta: T,
    law: F,
)
    requires
        a.pos.len() == N,
        b.pos.len() == N,
        a.pos.vec_equals(a.pos),
        a.pos.vec_equals(b.pos),
        b.pos.vec_equals(a.pos),
        a.pos.distance_squared(b.pos).below_spec(T::one_spec()),
    ensures
        tree_of(seq![a, b]) == (TreeModel::Leaf {
            body: Some(
                BodyModel {
                    pos: a.pos,
                    mass: a.mass.plus_spec(T::one_spec()).plus_spec(
                        b.mass.plus_spec(T::one_spec()),
                    ),
                    custom: a.size,
                },
            ),
            lo: bounds_upto(seq![a, b], 2).0,
            hi: bounds_upto(seq![a, b], 2).1,
        }),
        tree_of(seq![a, b]).apply::<F, N>(a.pos, theta, a.size, law) == Seq::<T>::zeros(N as nat),
        tree_of(seq![a, b]).apply::<F, N>(b.pos, theta, b.size, law) == Seq::<T>::zeros(N as nat),
{
    let (lo, hi) = bounds_upto(seq![a, b], 2);
    assert(tree_of(seq![a, b]) == (TreeModel::Leaf { body: None, lo, hi }).add_body(
        body_of(a),
        0,
    ).add_body(body_of(b), 0)) by {
        reveal_with_fuel(tree_upto, 3);
    }
}

} // verus!
