//! Gravity: every node is pulled toward the origin.

use crate::forces::Gravity;
use crate::layout::{Layout, Node, NodeView};
use crate::util::{Coord, CoordSeq};
use vstd::prelude::*;

verus! {

impl<T: Coord> NodeView<T> {
    /// The node after gravity that weakens with the distance: its speed
    /// less `pos * (mass + 1) * kg / |pos|^2`, a pull of strength
    /// `(mass + 1) * kg / |pos|`. A node whose squared distance to the
    /// origin compares equal to zero is left as it is.
    pub open spec fn pulled(self, kg: T) -> Self {
        let d = self.pos.norm_squared();
        if d.equals_spec(T::zero_spec()) {
            self
        } else {
            NodeView {
                speed: self.speed.vec_minus(
                    self.pos.scaled(self.mass.plus_spec(T::one_spec())).scaled(kg).divided(d),
                ),
                ..self
            }
        }
    }

    /// The node after strong gravity: its speed less
    /// `pos / |pos| * (mass + 1) * kg`, a pull of strength
    /// `(mass + 1) * kg` at every distance. A node whose distance to the
    /// origin compares equal to zero is left as it is.
    pub open spec fn pulled_strongly(self, kg: T) -> Self {
        let d = self.pos.norm_squared().sqrt_spec();
        if d.equals_spec(T::zero_spec()) {
            self
        } else {
            NodeView {
                speed: self.speed.vec_minus(
                    self.pos.divided(d).scaled(self.mass.plus_spec(T::one_spec())).scaled(kg),
                ),
                ..self
            }
        }
    }

    /// The node after gravity of the given kind
    pub open spec fn pulled_by(self, kind: Gravity, kg: T) -> Self {
        match kind {
            Gravity::Off => self,
            Gravity::Weak => self.pulled(kg),
            Gravity::Strong => self.pulled_strongly(kg),
        }
    }
}

impl<T: Coord, const N: usize> Node<T, N> {
    /// Gravity on one node, weakening with the distance
    pub fn pull(&mut self, kg: T)
        ensures
            final(self)@ == old(self)@.pulled(kg),
    {
        let d = self.pos.norm_squared();
        if d.equals(T::zero()) {
            return ;
        }
        let f = self.pos.times(self.mass.plus(T::one())).times(kg).over(d);
        self.speed = self.speed.minus(f);
    }

    /// Strong gravity on one node
    pub fn pull_strongly(&mut self, kg: T)
        ensures
            final(self)@ == old(self)@.pulled_strongly(kg),
    {
        let d = self.pos.norm_squared().sqrt();
        if d.equals(T::zero()) {
            return ;
        }
        let f = self.pos.over(d).times(self.mass.plus(T::one())).times(kg);
        self.speed = self.speed.minus(f);
    }

    /// Gravity of the given kind on one node
    pub fn pull_by(&mut self, kind: Gravity, kg: T)
        ensures
            final(self)@ == old(self)@.pulled_by(kind, kg),
    {
        match kind {
            Gravity::Off => {},
            Gravity::Weak => self.pull(kg),
            Gravity::Strong => self.pull_strongly(kg),
        }
    }
}

/// What gravity makes of the nodes
pub open spec fn gravity_pass<T: Coord>(nodes: Seq<NodeView<T>>, kind: Gravity, kg: T) -> Seq<
    NodeView<T>,
> {
    Seq::new(nodes.len(), |i: int| nodes[i].pulled_by(kind, kg))
}

/// Gravity that weakens with the distance, on every node
pub fn apply_gravity<T: Coord, const N: usize>(layout: &mut Layout<T, N>)
    ensures
        final(layout).same_graph(*old(layout)),
        final(layout).tree == old(layout).tree,
        final(layout).nodes@.len() == old(layout).nodes@.len(),
        final(layout).views() == gravity_pass(
            old(layout).views(),
            Gravity::Weak,
            old(layout).settings.kg,
        ),
{
    let kg = layout.settings.kg;
    let mut i: usize = 0;
    while i < layout.nodes.len()
        invariant
            i <= layout.nodes@.len(),
            layout.same_graph(*old(layout)),
            layout.tree == old(layout).tree,
            kg == old(layout).settings.kg,
            layout.nodes@.len() == old(layout).nodes@.len(),
            forall|j: int|
                0 <= j < i ==> (#[trigger] layout.nodes@[j])@ == old(layout).nodes@[j]@.pulled(kg),
            forall|j: int|
                i <= j < layout.nodes@.len() ==> layout.nodes@[j] == old(layout).nodes@[j],
        decreases layout.nodes@.len() - i,
    {
        layout.nodes[i].pull(kg);
        i += 1;
    }
    assert(layout.views() =~= gravity_pass(old(layout).views(), Gravity::Weak, kg));
}

/// Strong gravity, on every node
pub fn apply_gravity_sg<T: Coord, const N: usize>(layout: &mut Layout<T, N>)
    ensures
        final(layout).same_graph(*old(layout)),
        final(layout).tree == old(layout).tree,
        final(layout).nodes@.len() == old(layout).nodes@.len(),
        final(layout).views() == gravity_pass(
            old(layout).views(),
            Gravity::Strong,
            old(layout).settings.kg,
        ),
{
    let kg = layout.settings.kg;
    let mut i: usize = 0;
    while i < layout.nodes.len()
        invariant
            i <= layout.nodes@.len(),
            layout.same_graph(*old(layout)),
            layout.tree == old(layout).tree,
            kg == old(layout).settings.kg,
            layout.nodes@.len() == old(layout).nodes@.len(),
            forall|j: int|
                0 <= j < i ==> (#[trigger] layout.nodes@[j])@ == old(
                    layout,
                ).nodes@[j]@.pulled_strongly(kg),
            forall|j: int|
                i <= j < layout.nodes@.len() ==> layout.nodes@[j] == old(layout).nodes@[j],
        decreases layout.nodes@.len() - i,
    {
        layout.nodes[i].pull_strongly(kg);
        i += 1;
    }
    assert(layout.views() =~= gravity_pass(old(layout).views(), Gravity::Strong, kg));
}

/// A node at no distance from the origin is left alone by gravity, whatever
/// the coefficient: its speed is what it was, with no division by zero.
/// Gravity that weakens looks at the squared distance, strong gravity at
/// the distance.
pub proof fn lemma_gravity_spares_the_origin<T: Coord>(node: NodeView<T>, kg: T)
    ensures
        node.pos.norm_squared().equals_spec(T::zero_spec()) ==> node.pulled(kg) == node,
        node.pos.norm_squared().sqrt_spec().equals_spec(T::zero_spec()) ==> node.pulled_strongly(
            kg,
        ) == node,
        node.pulled_by(Gravity::Off, kg) == node,
{
}

} // verus!
