//! The Barnes-Hut tree: a recursive partition of space in which every
//! branch knows the mass and the centre of mass of what lies beneath it, so
//! that a distant cluster can be treated as one body.
//!
//! A tree over `N` dimensions splits a box into `2^N` children (four in the
//! plane, eight in space). [`TreeModel`] is the tree as contracts see it;
//! [`TreeModel::add_body`] and [`TreeModel::apply`] say what insertion and
//! the force query compute.
//!
//! [`Tree`] is the tree as it runs: all its nodes stand in one arena, a
//! vector in which a branch names its children by their place. A tree is
//! built anew for every repulsion pass and cleared after it; the arena
//! keeps its storage, so that a layout that has run once allocates no
//! node again. [`model_at`] reads the model out of the arena.

use crate::util::{zero_is_neutral, Coord, CoordSeq, VecN};
use vstd::arithmetic::power2::{lemma2_to64, lemma_pow2_strictly_increases, lemma_pow2_unfold, pow2};
use vstd::prelude::*;

verus! {

/// Maximum tree depth
pub const MAX_DEPTH: usize = 32;

/// What a body is to the tree: where it is, how heavy, and what it carries
pub struct BodyModel<T, C> {
    /// Position
    pub pos: Seq<T>,
    /// Mass
    pub mass: T,
    /// Custom value
    pub custom: C,
}

impl<T: Coord, C> BodyModel<T, C> {
    /// The body that stands for `self` and a further mass `mass` at `pos`:
    /// the masses added, at their mass-weighted centroid. Where the two
    /// positions compare equal the centroid is that position, and it is
    /// kept as it is, with no rounding. The custom value is that of `self`.
    pub open spec fn merged(self, mass: T, pos: Seq<T>) -> Self {
        BodyModel {
            pos: if self.pos.vec_equals(pos) {
                self.pos
            } else {
                centroid(self.pos, self.mass, pos, mass)
            },
            mass: self.mass.plus_spec(mass),
            custom: self.custom,
        }
    }
}

/// The mass-weighted mean of `p` (of mass `m`) and `q` (of mass `w`):
/// `(p * m + q * w) / (m + w)`
pub open spec fn centroid<T: Coord>(p: Seq<T>, m: T, q: Seq<T>, w: T) -> Seq<T> {
    p.scaled(m).vec_plus(q.scaled(w)).divided(m.plus_spec(w))
}

/// A body in the Barnes-Hut simulation
pub trait Body<T: Coord, const N: usize>: Sized {
    /// The custom value that a body carries
    type Custom: Copy;

    /// What the body is to the tree
    spec fn model(&self) -> BodyModel<T, Self::Custom>;

    /// Get mass
    fn mass(&self) -> (m: T)
        ensures
            m == self.model().mass,
    ;

    /// Get position
    fn pos(&self) -> (p: VecN<T, N>)
        ensures
            p@ == self.model().pos,
    ;

    /// Change center of mass by adding given mass at given position
    fn add_mass(&mut self, mass: T, pos: VecN<T, N>)
        ensures
            final(self).model() == old(self).model().merged(mass, pos@),
    ;

    /// Get custom value
    fn custom(&self) -> (c: Self::Custom)
        ensures
            c == self.model().custom,
    ;
}

/// How bodies push a point: the law for a single body nearby, and the law
/// for a distant cluster taken as one body.
pub trait ForceLaw<T: Coord, C, const N: usize> {
    /// The push of a cluster of total mass `mass` centred at `center` on a
    /// point at `on`, at distance `dist`, that carries `custom`
    spec fn far_spec(&self, center: Seq<T>, on: Seq<T>, mass: T, dist: T, custom: C) -> Seq<T>;

    /// The push of a distant cluster
    fn far(&self, center: VecN<T, N>, on: VecN<T, N>, mass: T, dist: T, custom: C) -> (f: VecN<
        T,
        N,
    >)
        ensures
            f@ == self.far_spec(center@, on@, mass, dist, custom),
    ;

    /// The push of one body of mass `mass` at `center`, which carries
    /// `body_custom`, on a point at `on`, at distance `dist`, that carries
    /// `custom`
    spec fn near_spec(
        &self,
        center: Seq<T>,
        on: Seq<T>,
        mass: T,
        dist: T,
        custom: C,
        body_custom: C,
    ) -> Seq<T>;

    /// The push of a single body
    fn near(
        &self,
        center: VecN<T, N>,
        on: VecN<T, N>,
        mass: T,
        dist: T,
        custom: C,
        body_custom: C,
    ) -> (f: VecN<T, N>)
        ensures
            f@ == self.near_spec(center@, on@, mass, dist, custom, body_custom),
    ;
}

/// The depth handed to the next level of an insertion. Past [`MAX_DEPTH`]
/// it no longer counts: every deeper level merges.
pub open spec fn next_depth(depth: nat) -> nat {
    if depth > MAX_DEPTH {
        depth
    } else {
        depth + 1
    }
}

/// Which child of a branch centred at `center` takes a body at `pos`, over
/// the axes from `axis` on: the first of these axes counts one, the next
/// two, and so on, and an axis counts when the position is not below the
/// centre on it.
pub open spec fn child_index<T: Coord>(pos: Seq<T>, center: Seq<T>, axis: nat) -> nat
    decreases pos.len() - axis,
{
    if axis >= pos.len() {
        0
    } else {
        (if pos[axis as int].below_spec(center[axis as int]) {
            0nat
        } else {
            1nat
        }) + 2 * child_index(pos, center, axis + 1)
    }
}

/// Whether child `k` of a branch lies in the upper half of its parent on
/// axis `axis`
pub open spec fn upper_half(k: nat, axis: nat) -> bool
    decreases axis,
{
    if axis == 0 {
        k % 2 == 1
    } else {
        upper_half(k / 2, (axis - 1) as nat)
    }
}

/// The lower corner of child `k` of the box `(lo, hi)` split at `center`
pub open spec fn child_lo<T>(lo: Seq<T>, center: Seq<T>, k: nat) -> Seq<T> {
    Seq::new(
        lo.len(),
        |i: int|
            if upper_half(k, i as nat) {
                center[i]
            } else {
                lo[i]
            },
    )
}

/// The upper corner of child `k` of the box `(lo, hi)` split at `center`
pub open spec fn child_hi<T>(hi: Seq<T>, center: Seq<T>, k: nat) -> Seq<T> {
    Seq::new(
        hi.len(),
        |i: int|
            if upper_half(k, i as nat) {
                hi[i]
            } else {
                center[i]
            },
    )
}

/// The tree as contracts see it
pub enum TreeModel<T, C> {
    /// A box that was split: the total of what lies beneath it, and its
    /// children
    Branch {
        /// The `2^N` children
        nodes: Seq<TreeModel<T, C>>,
        /// Centre of the box
        center: Seq<T>,
        /// Mass of all bodies beneath
        mass: T,
        /// Centre of mass of all bodies beneath
        center_of_mass: Seq<T>,
        /// Width of the box on the first axis
        width: T,
    },
    /// A box that holds at most one body
    Leaf {
        /// The body, which may stand for several that were merged
        body: Option<BodyModel<T, C>>,
        /// Lower corner of the box
        lo: Seq<T>,
        /// Upper corner of the box
        hi: Seq<T>,
    },
}

impl<T: Coord, C> TreeModel<T, C> {
    /// Every branch has `2^n` children, and every vector `n` coordinates
    pub open spec fn wf(self, n: nat) -> bool
        decreases self,
    {
        match self {
            TreeModel::Branch { nodes, center, center_of_mass, .. } => {
                &&& nodes.len() == pow2(n)
                &&& center.len() == n
                &&& center_of_mass.len() == n
                &&& forall|k: int| 0 <= k < nodes.len() ==> (#[trigger] nodes[k]).wf(n)
            },
            TreeModel::Leaf { lo, hi, .. } => {
                &&& lo.len() == n
                &&& hi.len() == n
            },
        }
    }

    /// The box `(lo, hi)` split at its centre into empty children. The
    /// branch holds no mass yet, and its centre of mass starts at the
    /// centre of the box.
    pub open spec fn subdivided(lo: Seq<T>, hi: Seq<T>) -> Self {
        let center = lo.vec_plus(hi).divided(T::one_spec().plus_spec(T::one_spec()));
        TreeModel::Branch {
            nodes: Seq::new(
                pow2(lo.len()),
                |k: int|
                    TreeModel::Leaf {
                        body: None,
                        lo: child_lo(lo, center, k as nat),
                        hi: child_hi(hi, center, k as nat),
                    },
            ),
            center,
            mass: T::zero_spec(),
            center_of_mass: center,
            width: hi[0].minus_spec(lo[0]),
        }
    }

    /// The tree after the insertion of `b` at recursion depth `depth`.
    ///
    /// A branch adds the body to its totals and hands it to the child that
    /// its position selects. An empty leaf takes it. An occupied leaf
    /// merges the two bodies when `depth` is past [`MAX_DEPTH`] or they are
    /// less than one unit apart (squared); otherwise it splits, and takes
    /// first the body it held, then the new one.
    pub open spec fn add_body(self, b: BodyModel<T, C>, depth: nat) -> Self
        decreases MAX_DEPTH + 1 - depth, self,
    {
        match self {
            TreeModel::Branch { nodes, center, mass, center_of_mass, width } => {
                let k = child_index(b.pos, center, 0) as int;
                if k < nodes.len() {
                    TreeModel::Branch {
                        nodes: nodes.update(k, nodes[k].add_body(b, next_depth(depth))),
                        center,
                        mass: mass.plus_spec(b.mass),
                        center_of_mass: centroid(center_of_mass, mass, b.pos, b.mass),
                        width,
                    }
                } else {
                    self
                }
            },
            TreeModel::Leaf { body: None, lo, hi } => TreeModel::Leaf { body: Some(b), lo, hi },
            TreeModel::Leaf { body: Some(held), lo, hi } => {
                if depth > MAX_DEPTH || held.pos.distance_squared(b.pos).below_spec(T::one_spec()) {
                    TreeModel::Leaf { body: Some(held.merged(b.mass, b.pos)), lo, hi }
                } else {
                    Self::subdivided(lo, hi).add_body(held, next_depth(depth)).add_body(
                        b,
                        next_depth(depth),
                    )
                }
            },
        }
    }

    /// The force on a virtual body at `on` that carries `custom`.
    ///
    /// A branch whose centre of mass coincides with `on` contributes
    /// nothing. A branch seen under a ratio of width to distance below
    /// `theta` counts as one body, by the law for clusters; any other
    /// branch contributes the sum of its children, taken in order. A leaf
    /// contributes what the law for a single body gives for its body,
    /// nothing when it is empty or its body coincides with `on`.
    pub open spec fn apply<F: ForceLaw<T, C, N>, const N: usize>(
        self,
        on: Seq<T>,
        theta: T,
        custom: C,
        law: F,
    ) -> Seq<T>
        decreases self, 0nat,
    {
        match self {
            TreeModel::Branch { nodes, mass, center_of_mass, width, .. } => {
                if on.vec_equals(center_of_mass) {
                    Seq::<T>::zeros(on.len())
                } else {
                    let dist = on.distance(center_of_mass);
                    if width.over_spec(dist).below_spec(theta) {
                        law.far_spec(center_of_mass, on, mass, dist, custom)
                    } else {
                        Self::apply_children::<F, N>(nodes, nodes.len(), on, theta, custom, law)
                    }
                }
            },
            TreeModel::Leaf { body: Some(b), .. } => {
                if on.vec_equals(b.pos) {
                    Seq::<T>::zeros(on.len())
                } else {
                    law.near_spec(b.pos, on, b.mass, on.distance(b.pos), custom, b.custom)
                }
            },
            TreeModel::Leaf { body: None, .. } => Seq::<T>::zeros(on.len()),
        }
    }

    /// The forces of the first `n` of `nodes` on a virtual body at `on`,
    /// added from the first on; nothing when there is none
    pub open spec fn apply_children<F: ForceLaw<T, C, N>, const N: usize>(
        nodes: Seq<Self>,
        n: nat,
        on: Seq<T>,
        theta: T,
        custom: C,
        law: F,
    ) -> Seq<T>
        decreases nodes, n,
    {
        if n == 0 || n > nodes.len() {
            Seq::<T>::zeros(on.len())
        } else if n == 1 {
            nodes[0].apply::<F, N>(on, theta, custom, law)
        } else {
            Self::apply_children::<F, N>(nodes, (n - 1) as nat, on, theta, custom, law).vec_plus(
                nodes[n - 1].apply::<F, N>(on, theta, custom, law),
            )
        }
    }
}

/// A tree node in the Barnes-Hut simulation
pub enum NodeN<T, L, const N: usize> {
    /// A box that was split
    Branch {
        /// Where in the arena the first of the `2^N` children stands; the
        /// others follow it
        first_child: usize,
        /// Centre of the box
        center: VecN<T, N>,
        /// Mass of all bodies beneath
        mass: T,
        /// Centre of mass of all bodies beneath
        center_of_mass: VecN<T, N>,
        /// Width of the box on the first axis
        width: T,
    },
    /// A box that holds at most one body
    Leaf {
        /// The body, which may stand for several that were merged
        body: Option<L>,
        /// Lower and upper corner of the box
        pos: (VecN<T, N>, VecN<T, N>),
    },
}

/// Node of a quadtree
pub type Node2<T, L> = NodeN<T, L, 2>;

/// Node of an octree
pub type Node3<T, L> = NodeN<T, L, 3>;

/// A Barnes-Hut tree in its arena: all nodes of the tree stand in one
/// vector, the root first, and a branch names its children by their place.
/// A tree that is cleared keeps the storage for the next one.
pub struct Tree<T, L, const N: usize> {
    /// The nodes of the tree; the first is the root
    pub nodes: Vec<NodeN<T, L, N>>,
    /// For each node but the root, the place of the branch whose child it is
    pub parents: Ghost<Seq<int>>,
}

/// The number of children of a branch over `n` dimensions
pub fn child_count(n: usize) -> (count: usize)
    requires
        n < 32,
    ensures
        count == pow2(n as nat),
{
    let mut count: usize = 1;
    let mut i: usize = 0;
    proof {
        lemma2_to64();
    }
    while i < n
        invariant
            i <= n,
            n < 32,
            count == pow2(i as nat),
        decreases n - i,
    {
        proof {
            lemma2_to64();
            lemma_pow2_unfold((i + 1) as nat);
            if i + 1 < 31 {
                lemma_pow2_strictly_increases((i + 1) as nat, 31);
            }
        }
        count = 2 * count;
        i += 1;
    }
    count
}

/// `child_index` over the axes from `axis` on is below `2^(n - axis)`
pub proof fn lemma_child_index_bound<T: Coord>(pos: Seq<T>, center: Seq<T>, axis: nat)
    requires
        axis <= pos.len(),
    ensures
        child_index(pos, center, axis) < pow2((pos.len() - axis) as nat),
    decreases pos.len() - axis,
{
    if axis >= pos.len() {
        lemma2_to64();
    } else {
        lemma_child_index_bound(pos, center, axis + 1);
        lemma_pow2_unfold((pos.len() - axis) as nat);
    }
}

/// The child of a branch centred at `center` that takes a body at `pos`
pub fn select_child<T: Coord, const N: usize>(pos: &VecN<T, N>, center: &VecN<T, N>) -> (k: usize)
    requires
        N < 32,
    ensures
        k == child_index(pos@, center@, 0),
        k < pow2(N as nat),
{
    let mut k: usize = 0;
    let mut i: usize = N;
    while i > 0
        invariant
            i <= N,
            N < 32,
            k == child_index(pos@, center@, i as nat),
        decreases i,
    {
        proof {
            lemma_child_index_bound(pos@, center@, i as nat);
            lemma_child_index_bound(pos@, center@, (i - 1) as nat);
            lemma2_to64();
            if N - i + 1 < 31 {
                lemma_pow2_strictly_increases((N - i + 1) as nat, 31);
            }
        }
        i -= 1;
        let bit: usize = if pos.0[i].below(center.0[i]) {
            0
        } else {
            1
        };
        k = bit + 2 * k;
    }
    proof {
        lemma_child_index_bound(pos@, center@, 0);
    }
    k
}

/// The corners of child `k` of the box `(lo, hi)` split at `center`
pub fn child_box<T: Coord, const N: usize>(
    lo: &VecN<T, N>,
    hi: &VecN<T, N>,
    center: &VecN<T, N>,
    k: usize,
) -> (corners: (VecN<T, N>, VecN<T, N>))
    ensures
        corners.0@ == child_lo(lo@, center@, k as nat),
        corners.1@ == child_hi(hi@, center@, k as nat),
{
    let mut child_lower = *lo;
    let mut child_upper = *hi;
    let mut rest: usize = k;
    let mut i: usize = 0;
    while i < N
        invariant
            i <= N,
            forall|m: nat| #[trigger] upper_half(rest as nat, m) == upper_half(k as nat, (i + m) as nat),
            forall|j: int|
                0 <= j < i ==> child_lower@[j] == (if upper_half(k as nat, j as nat) {
                    center@[j]
                } else {
                    lo@[j]
                }),
            forall|j: int|
                0 <= j < i ==> child_upper@[j] == (if upper_half(k as nat, j as nat) {
                    hi@[j]
                } else {
                    center@[j]
                }),
            forall|j: int| i <= j < N ==> child_lower@[j] == lo@[j],
            forall|j: int| i <= j < N ==> child_upper@[j] == hi@[j],
        decreases N - i,
    {
        assert(upper_half(rest as nat, 0) == upper_half(k as nat, (i + 0) as nat));
        assert(upper_half(k as nat, i as nat) == (rest % 2 == 1));
        let ghost lower_before = child_lower@;
        let ghost upper_before = child_upper@;
        assert forall|m: nat| #[trigger]
            upper_half((rest / 2) as nat, m) == upper_half(k as nat, ((i + 1) + m) as nat) by {
            assert(upper_half(rest as nat, m + 1) == upper_half(k as nat, (i + (m + 1)) as nat));
        }
        if rest % 2 == 1 {
            child_lower.0[i] = center.0[i];
        } else {
            child_upper.0[i] = center.0[i];
        }
        rest = rest / 2;
        assert(forall|j: int| 0 <= j < N && j != i ==> child_lower@[j] == lower_before[j]);
        assert(forall|j: int| 0 <= j < N && j != i ==> child_upper@[j] == upper_before[j]);
        i += 1;
    }
    assert(child_lower@ =~= child_lo(lo@, center@, k as nat));
    assert(child_upper@ =~= child_hi(hi@, center@, k as nat));
    (child_lower, child_upper)
}

/// The place in the arena of child `k` of a branch whose first child
/// stands at `first`
pub open spec fn child_place(first: usize, k: int) -> int {
    first + k
}

/// Whether the nodes are linked into trees: every node but the first is
/// one of the children of the branch that `parents` names for it, which
/// stands before it, and every branch has its `2^N` children after it,
/// each of which names it as its parent.
pub open spec fn well_linked<T, L, const N: usize>(
    nodes: Seq<NodeN<T, L, N>>,
    parents: Seq<int>,
) -> bool {
    &&& parents.len() == nodes.len()
    &&& forall|j: int|
        1 <= j < nodes.len() ==> {
            let p = #[trigger] parents[j];
            &&& 0 <= p < j
            &&& nodes[p] is Branch
            &&& nodes[p]->first_child <= j < nodes[p]->first_child + pow2(N as nat)
        }
    &&& forall|i: int, k: int|
        0 <= i < nodes.len() && nodes[i] is Branch && 0 <= k < pow2(N as nat) ==> {
            let c = #[trigger] child_place(nodes[i]->first_child, k);
            &&& i < c < nodes.len()
            &&& parents[c] == i
        }
}

/// Whether node `j` is node `i` or stands beneath it
pub open spec fn is_under(parents: Seq<int>, j: int, i: int) -> bool
    decreases j,
{
    if j == i {
        true
    } else if 0 < j < parents.len() && 0 <= parents[j] < j {
        is_under(parents, parents[j], i)
    } else {
        false
    }
}

/// The tree beneath node `i` as contracts see it
pub open spec fn model_at<T: Coord, L: Body<T, N>, const N: usize>(
    nodes: Seq<NodeN<T, L, N>>,
    i: int,
) -> TreeModel<T, L::Custom>
    decreases nodes.len() - i,
{
    if 0 <= i < nodes.len() {
        match nodes[i] {
            NodeN::Branch { first_child, center, mass, center_of_mass, width } => TreeModel::Branch {
                nodes: Seq::new(
                    pow2(N as nat),
                    |k: int|
                        if i < first_child + k < nodes.len() {
                            model_at(nodes, first_child + k)
                        } else {
                            arbitrary()
                        },
                ),
                center: center@,
                mass,
                center_of_mass: center_of_mass@,
                width,
            },
            NodeN::Leaf { body, pos } => TreeModel::Leaf {
                body: match body {
                    Some(b) => Some(b.model()),
                    None => None,
                },
                lo: pos.0@,
                hi: pos.1@,
            },
        }
    } else {
        arbitrary()
    }
}

/// What stands beneath a node stands after it.
proof fn lemma_under_is_after(parents: Seq<int>, j: int, i: int)
    requires
        is_under(parents, j, i),
    ensures
        i <= j,
    decreases j,
{
    if j != i {
        lemma_under_is_after(parents, parents[j], i);
    }
}

/// What stands beneath a child stands beneath its parent.
proof fn lemma_under_child<T, L, const N: usize>(
    nodes: Seq<NodeN<T, L, N>>,
    parents: Seq<int>,
    j: int,
    c: int,
)
    requires
        well_linked(nodes, parents),
        1 <= c < nodes.len(),
        is_under(parents, j, c),
    ensures
        is_under(parents, j, parents[c]),
    decreases j,
{
    let p = parents[c];
    assert(0 <= p < c);
    if j == c {
        assert(is_under(parents, p, p));
    } else {
        lemma_under_is_after(parents, j, c);
        lemma_under_child(nodes, parents, parents[j], c);
        assert(is_under(parents, parents[j], p));
    }
}

/// Nothing stands beneath two children of one branch.
proof fn lemma_siblings_apart<T, L, const N: usize>(
    nodes: Seq<NodeN<T, L, N>>,
    parents: Seq<int>,
    j: int,
    c: int,
    s: int,
)
    requires
        well_linked(nodes, parents),
        1 <= c < nodes.len(),
        1 <= s < nodes.len(),
        c != s,
        parents[c] == parents[s],
        is_under(parents, j, c),
    ensures
        !is_under(parents, j, s),
    decreases j,
{
    if j == c {
        if is_under(parents, c, s) {
            lemma_under_is_after(parents, parents[c], s);
        }
    } else if j == s {
        lemma_under_is_after(parents, parents[s], c);
    } else {
        lemma_siblings_apart(nodes, parents, parents[j], c, s);
    }
}

/// Whether a node stands beneath another depends on the parents up to it
/// alone.
proof fn lemma_under_is_stable(before: Seq<int>, after: Seq<int>, j: int, i: int)
    requires
        before.len() <= after.len(),
        after.subrange(0, before.len() as int) == before,
        j < before.len(),
    ensures
        is_under(after, j, i) == is_under(before, j, i),
    decreases j,
{
    if j != i && 0 < j {
        assert(after[j] == after.subrange(0, before.len() as int)[j]);
        if 0 <= before[j] < j {
            lemma_under_is_stable(before, after, before[j], i);
        }
    }
}

/// The tree beneath a node is what the nodes beneath it make it: it stays
/// as it is where they do.
proof fn lemma_untouched<T: Coord, L: Body<T, N>, const N: usize>(
    before: Seq<NodeN<T, L, N>>,
    parents: Seq<int>,
    after: Seq<NodeN<T, L, N>>,
    s: int,
)
    requires
        well_linked(before, parents),
        0 <= s < before.len() <= after.len(),
        forall|j: int| 0 <= j < before.len() && is_under(parents, j, s) ==> after[j] == before[j],
    ensures
        model_at(after, s) == model_at(before, s),
    decreases before.len() - s,
{
    assert(is_under(parents, s, s));
    match before[s] {
        NodeN::Branch { first_child, .. } => {
            assert forall|k: int| 0 <= k < pow2(N as nat) implies (#[trigger] model_at(
                after,
                s,
            )->Branch_nodes[k]) == model_at(before, s)->Branch_nodes[k] by {
                let c = child_place(first_child, k);
                assert(s < c < before.len() && parents[c] == s);
                assert forall|j: int|
                    0 <= j < before.len() && is_under(parents, j, c) implies after[j]
                    == before[j] by {
                    lemma_under_child(before, parents, j, c);
                }
                lemma_untouched(before, parents, after, c);
            }
            assert(model_at(after, s)->Branch_nodes =~= model_at(before, s)->Branch_nodes);
        },
        NodeN::Leaf { .. } => {},
    }
}

/// The tree beneath a node of an arena that is well linked is well formed:
/// every branch has exactly `2^N` children.
pub proof fn lemma_linked_is_well_formed<T: Coord, L: Body<T, N>, const N: usize>(
    nodes: Seq<NodeN<T, L, N>>,
    parents: Seq<int>,
    i: int,
)
    requires
        well_linked(nodes, parents),
        0 <= i < nodes.len(),
    ensures
        model_at(nodes, i).wf(N as nat),
    decreases nodes.len() - i,
{
    match nodes[i] {
        NodeN::Branch { first_child, .. } => {
            assert forall|k: int| 0 <= k < pow2(N as nat) implies (#[trigger] model_at(
                nodes,
                i,
            )->Branch_nodes[k]).wf(N as nat) by {
                let c = child_place(first_child, k);
                assert(i < c < nodes.len());
                lemma_linked_is_well_formed(nodes, parents, c);
            }
        },
        NodeN::Leaf { .. } => {},
    }
}

impl<T: Coord, L: Body<T, N>, const N: usize> Tree<T, L, N> {
    /// Whether the arena holds a tree
    pub open spec fn wf(self) -> bool {
        self.nodes@.len() > 0 && well_linked(self.nodes@, self.parents@)
    }

    /// The tree as contracts see it
    pub open spec fn model(self) -> TreeModel<T, L::Custom> {
        model_at(self.nodes@, 0)
    }

    /// Create an arena that holds no tree yet
    pub fn new() -> (tree: Self)
        ensures
            tree.nodes@.len() == 0,
    {
        Tree { nodes: Vec::new(), parents: Ghost(Seq::empty()) }
    }

    /// Start a tree over the box with the given lower and upper corner: an
    /// empty leaf. The tree that the arena held is gone.
    pub fn new_root(&mut self, pos: (VecN<T, N>, VecN<T, N>))
        ensures
            final(self).wf(),
            final(self).nodes@.len() == 1,
            final(self).model() == (TreeModel::<T, L::Custom>::Leaf {
                body: None,
                lo: pos.0@,
                hi: pos.1@,
            }),
            final(self).model().wf(N as nat),
    {
        self.nodes.clear();
        self.nodes.push(NodeN::Leaf { body: None, pos });
        proof {
            self.parents@ = seq![-1int];
        }
    }

    /// Discard the tree. The arena keeps its storage.
    pub fn clear(&mut self)
        ensures
            final(self).nodes@.len() == 0,
    {
        self.nodes.clear();
    }

    /// Split the leaf at `i`, whose box is `(lo, hi)`, into `2^N` empty
    /// children at the end of the arena
    fn subdivide_at(&mut self, i: usize, lo: VecN<T, N>, hi: VecN<T, N>)
        requires
            0 < N < 32,
            old(self).wf(),
            i < old(self).nodes@.len(),
            old(self).nodes@[i as int] is Leaf,
        ensures
            final(self).wf(),
            final(self).nodes@.len() == old(self).nodes@.len() + pow2(N as nat),
            forall|j: int|
                0 <= j < old(self).nodes@.len() && j != i ==> final(self).nodes@[j] == old(
                    self,
                ).nodes@[j],
            final(self).parents@.subrange(0, old(self).nodes@.len() as int) == old(self).parents@,
            forall|j: int|
                old(self).nodes@.len() <= j < final(self).nodes@.len() ==> final(self).parents@[j]
                    == i,
            model_at(final(self).nodes@, i as int) == TreeModel::<T, L::Custom>::subdivided(
                lo@,
                hi@,
            ),
    {
        let center = lo.plus(hi).over(T::one().plus(T::one()));
        let count = child_count(N);
        let first = self.nodes.len();
        let mut k: usize = 0;
        assert(self.nodes@.subrange(0, first as int) =~= self.nodes@);
        assert(self.parents@.subrange(0, first as int) =~= self.parents@);
        while k < count
            invariant
                k <= count,
                count == pow2(N as nat),
                first == old(self).nodes@.len(),
                i < first,
                self.nodes@.len() == first + k,
                self.nodes@.subrange(0, first as int) == old(self).nodes@,
                self.parents@.len() == first + k,
                self.parents@.subrange(0, first as int) == old(self).parents@,
                forall|j: int| first <= j < first + k ==> self.parents@[j] == i,
                forall|j: int|
                    first <= j < first + k ==> {
                        &&& (#[trigger] self.nodes@[j]) is Leaf
                        &&& self.nodes@[j]->body is None
                        &&& self.nodes@[j]->pos.0@ == child_lo(lo@, center@, (j - first) as nat)
                        &&& self.nodes@[j]->pos.1@ == child_hi(hi@, center@, (j - first) as nat)
                    },
            decreases count - k,
        {
            let corners = child_box(&lo, &hi, &center, k);
            let ghost nodes_before = self.nodes@;
            let ghost parents_before = self.parents@;
            self.nodes.push(NodeN::Leaf { body: None, pos: corners });
            proof {
                self.parents@ = self.parents@.push(i as int);
                assert(self.nodes@.subrange(0, first as int) =~= nodes_before.subrange(
                    0,
                    first as int,
                ));
                assert(self.parents@.subrange(0, first as int) =~= parents_before.subrange(
                    0,
                    first as int,
                ));
            }
            k += 1;
        }
        let ghost filled = self.nodes@;
        self.nodes[i] = NodeN::Branch {
            first_child: first,
            center,
            mass: T::zero(),
            center_of_mass: center,
            width: hi.0[0].minus(lo.0[0]),
        };
        proof {
            let nodes = self.nodes@;
            let parents = self.parents@;
            assert forall|j: int| 0 <= j < first && j != i implies nodes[j] == old(self).nodes@[j] by {
                assert(filled.subrange(0, first as int)[j] == old(self).nodes@[j]);
            }
            assert forall|j: int| 0 <= j < first implies parents[j] == old(self).parents@[j] by {
                assert(parents.subrange(0, first as int)[j] == old(self).parents@[j]);
            }
            assert forall|j: int| 1 <= j < nodes.len() implies ({
                let p = #[trigger] parents[j];
                &&& 0 <= p < j
                &&& nodes[p] is Branch
                &&& nodes[p]->first_child <= j < nodes[p]->first_child + pow2(N as nat)
            }) by {
                if j < first {
                    let p = old(self).parents@[j];
                    assert(old(self).nodes@[p] is Branch);
                }
            }
            assert forall|b: int, k: int|
                0 <= b < nodes.len() && nodes[b] is Branch && 0 <= k < pow2(N as nat) implies ({
                let c = #[trigger] child_place(nodes[b]->first_child, k);
                &&& b < c < nodes.len()
                &&& parents[c] == b
            }) by {
                if b != i {
                    assert(b < first);
                    let c = child_place(old(self).nodes@[b]->first_child, k);
                    assert(b < c < first && old(self).parents@[c] == b);
                }
            }
            assert forall|k: int| 0 <= k < pow2(N as nat) implies (#[trigger] model_at(
                nodes,
                i as int,
            )->Branch_nodes[k]) == (TreeModel::<T, L::Custom>::Leaf {
                body: None,
                lo: child_lo(lo@, center@, k as nat),
                hi: child_hi(hi@, center@, k as nat),
            }) by {
                assert(nodes[first + k] == filled[first + k]);
                assert(model_at(nodes, i as int)->Branch_nodes[k] == model_at(nodes, first + k));
            }
            assert(model_at(nodes, i as int)->Branch_nodes =~= TreeModel::<
                T,
                L::Custom,
            >::subdivided(lo@, hi@)->Branch_nodes);
        }
    }

    /// Add a body beneath the node at `node`, at a given recursion depth
    pub fn add_body_at(&mut self, node: usize, new_body: L, depth: usize)
        requires
            0 < N < 32,
            old(self).wf(),
            node < old(self).nodes@.len(),
        ensures
            final(self).wf(),
            old(self).nodes@.len() <= final(self).nodes@.len(),
            final(self).parents@.subrange(0, old(self).nodes@.len() as int) == old(self).parents@,
            forall|j: int|
                0 <= j < old(self).nodes@.len() && !is_under(old(self).parents@, j, node as int)
                    ==> final(self).nodes@[j] == old(self).nodes@[j],
            forall|j: int|
                old(self).nodes@.len() <= j < final(self).nodes@.len() ==> is_under(
                    final(self).parents@,
                    j,
                    node as int,
                ),
            model_at(final(self).nodes@, node as int) == model_at(
                old(self).nodes@,
                node as int,
            ).add_body(new_body.model(), depth as nat),
        decreases MAX_DEPTH + 1 - depth, old(self).nodes@.len() - node,
    {
        let next: usize = if depth > MAX_DEPTH {
            depth
        } else {
            depth + 1
        };
        let ghost given = self.nodes@;
        let ghost parents = self.parents@;
        let len = self.nodes.len();
        assert(self.parents@.subrange(0, self.nodes@.len() as int) =~= self.parents@);
        match &mut self.nodes[node] {
            NodeN::Branch { first_child, center, mass, center_of_mass, .. } => {
                let p = new_body.pos();
                let m = new_body.mass();
                let k = select_child(&p, center);
                let first = *first_child;
                let ghost c = child_place(first, k as int);
                assert(node < c < given.len() && parents[c] == node);
                assert(first + k < len);
                *center_of_mass = center_of_mass.times(*mass).plus(p.times(m)).over(mass.plus(m));
                *mass = mass.plus(m);
                let ghost totalled = self.nodes@;
                assert(totalled.len() == given.len());
                assert(forall|j: int| 0 <= j < given.len() && j != node ==> totalled[j] == given[j]);
                assert(totalled[node as int] is Branch && totalled[node as int]->first_child
                    == first);
                proof {
                    assert forall|j: int| 1 <= j < totalled.len() implies ({
                        let q = #[trigger] parents[j];
                        &&& 0 <= q < j
                        &&& totalled[q] is Branch
                        &&& totalled[q]->first_child <= j < totalled[q]->first_child + pow2(
                            N as nat,
                        )
                    }) by {
                        assert(given[parents[j]] is Branch);
                    }
                    assert forall|b: int, h: int|
                        0 <= b < totalled.len() && totalled[b] is Branch && 0 <= h < pow2(
                            N as nat,
                        ) implies ({
                        let d = #[trigger] child_place(totalled[b]->first_child, h);
                        &&& b < d < totalled.len()
                        &&& parents[d] == b
                    }) by {
                        let d = child_place(given[b]->first_child, h);
                        assert(b < d < given.len() && parents[d] == b);
                    }
                }
                self.add_body_at(first + k, new_body, next);
                proof {
                    let done = self.nodes@;
                    let linked = self.parents@;
                    assert forall|j: int|
                        0 <= j < given.len() && !is_under(parents, j, node as int) implies done[j]
                        == given[j] by {
                        if is_under(parents, j, c) {
                            lemma_under_child(given, parents, j, c);
                        }
                    }
                    assert forall|j: int| given.len() <= j < done.len() implies is_under(
                        linked,
                        j,
                        node as int,
                    ) by {
                        assert(linked[c] == linked.subrange(0, given.len() as int)[c]);
                        lemma_under_child(done, linked, j, c);
                    }
                    assert(done[node as int] == totalled[node as int]) by {
                        if is_under(parents, node as int, c) {
                            lemma_under_is_after(parents, node as int, c);
                        }
                    }
                    assert forall|h: int| 0 <= h < pow2(N as nat) implies (#[trigger] model_at(
                        done,
                        node as int,
                    )->Branch_nodes[h]) == (if h == k {
                        model_at(given, node as int)->Branch_nodes[h].add_body(
                            new_body.model(),
                            next as nat,
                        )
                    } else {
                        model_at(given, node as int)->Branch_nodes[h]
                    }) by {
                        let s = child_place(first, h);
                        assert(node < s < given.len() && parents[s] == node);
                        assert forall|j: int|
                            0 <= j < given.len() && is_under(parents, j, s) implies totalled[j]
                            == given[j] by {
                            lemma_under_is_after(parents, j, s);
                        }
                        lemma_untouched(given, parents, totalled, s);
                        if h != k {
                            assert forall|j: int|
                                0 <= j < totalled.len() && is_under(parents, j, s) implies done[j]
                                == totalled[j] by {
                                lemma_siblings_apart(given, parents, j, s, c);
                            }
                            lemma_untouched(totalled, parents, done, s);
                        }
                    }
                    assert(model_at(done, node as int)->Branch_nodes =~= model_at(
                        given,
                        node as int,
                    ).add_body(new_body.model(), depth as nat)->Branch_nodes);
                }
            },
            NodeN::Leaf { body, pos } => {
                match body.take() {
                    Some(mut held) => {
                        if depth > MAX_DEPTH || held.pos().distance_squared(new_body.pos()).below(
                            T::one(),
                        ) {
                            held.add_mass(new_body.mass(), new_body.pos());
                            *body = Some(held);
                            proof {
                                self.lemma_leaf_changed(given, parents, node as int);
                            }
                        } else {
                            let lo = pos.0;
                            let hi = pos.1;
                            proof {
                                self.lemma_leaf_changed(given, parents, node as int);
                            }
                            let ghost emptied = self.nodes@;
                            self.subdivide_at(node, lo, hi);
                            let ghost split = self.nodes@;
                            let ghost split_parents = self.parents@;
                            self.add_body_at(node, held, next);
                            let ghost half = self.nodes@;
                            let ghost half_parents = self.parents@;
                            self.add_body_at(node, new_body, next);
                            proof {
                                let done = self.nodes@;
                                let linked = self.parents@;
                                assert(half_parents.subrange(0, given.len() as int)
                                    =~= split_parents.subrange(0, given.len() as int));
                                assert(linked.subrange(0, given.len() as int)
                                    =~= half_parents.subrange(0, given.len() as int));
                                assert forall|j: int|
                                    0 <= j < given.len() && !is_under(
                                        parents,
                                        j,
                                        node as int,
                                    ) implies done[j] == given[j] by {
                                    lemma_under_is_stable(parents, split_parents, j, node as int);
                                    lemma_under_is_stable(parents, half_parents, j, node as int);
                                }
                                assert forall|j: int|
                                    given.len() <= j < done.len() implies is_under(
                                    linked,
                                    j,
                                    node as int,
                                ) by {
                                    if j < split.len() {
                                        assert(split_parents[j] == node);
                                        assert(is_under(split_parents, node as int, node as int));
                                        assert(is_under(split_parents, j, node as int));
                                        lemma_under_is_stable(
                                            split_parents,
                                            half_parents,
                                            j,
                                            node as int,
                                        );
                                        lemma_under_is_stable(half_parents, linked, j, node as int);
                                    } else if j < half.len() {
                                        lemma_under_is_stable(half_parents, linked, j, node as int);
                                    }
                                }
                            }
                        }
                    },
                    None => {
                        *body = Some(new_body);
                        proof {
                            self.lemma_leaf_changed(given, parents, node as int);
                        }
                    },
                }
            },
        }
    }

    /// A leaf that takes, loses or changes its body leaves the arena linked
    /// as it was.
    proof fn lemma_leaf_changed(self, given: Seq<NodeN<T, L, N>>, parents: Seq<int>, node: int)
        requires
            well_linked(given, parents),
            0 <= node < given.len(),
            given[node] is Leaf,
            self.nodes@.len() == given.len(),
            self.nodes@[node] is Leaf,
            forall|j: int| 0 <= j < given.len() && j != node ==> self.nodes@[j] == given[j],
            self.parents@ == parents,
        ensures
            self.wf(),
    {
        let nodes = self.nodes@;
        assert forall|j: int| 1 <= j < nodes.len() implies ({
            let q = #[trigger] parents[j];
            &&& 0 <= q < j
            &&& nodes[q] is Branch
            &&& nodes[q]->first_child <= j < nodes[q]->first_child + pow2(N as nat)
        }) by {
            assert(given[parents[j]] is Branch);
        }
        assert forall|b: int, h: int|
            0 <= b < nodes.len() && nodes[b] is Branch && 0 <= h < pow2(N as nat) implies ({
            let d = #[trigger] child_place(nodes[b]->first_child, h);
            &&& b < d < nodes.len()
            &&& parents[d] == b
        }) by {
            let d = child_place(given[b]->first_child, h);
            assert(b < d < given.len() && parents[d] == b);
        }
    }

    /// Insert a body
    pub fn add_body(&mut self, new_body: L)
        requires
            0 < N < 32,
            old(self).wf(),
        ensures
            final(self).wf(),
            final(self).model() == old(self).model().add_body(new_body.model(), 0),
            final(self).model().wf(N as nat),
    {
        self.add_body_at(0, new_body, 0);
        proof {
            lemma_linked_is_well_formed(self.nodes@, self.parents@, 0);
        }
    }

    /// Compute the force that the tree beneath the node at `node` applies
    /// on a virtual body at a given position
    pub fn apply_at<F: ForceLaw<T, L::Custom, N>>(
        &self,
        node: usize,
        on: VecN<T, N>,
        theta: T,
        custom: L::Custom,
        law: &F,
    ) -> (f: VecN<T, N>)
        requires
            0 < N < 32,
            self.wf(),
            node < self.nodes@.len(),
        ensures
            f@ == model_at(self.nodes@, node as int).apply::<F, N>(on@, theta, custom, *law),
        decreases self.nodes@.len() - node,
    {
        match &self.nodes[node] {
            NodeN::Branch { first_child, mass, center_of_mass, width, .. } => {
                if on.equals(center_of_mass) {
                    return VecN::zero();
                }
                let dist = on.distance(*center_of_mass);
                if width.over(dist).below(theta) {
                    law.far(*center_of_mass, on, *mass, dist, custom)
                } else {
                    let ghost models = model_at(self.nodes@, node as int)->Branch_nodes;
                    let count = child_count(N);
                    let first = *first_child;
                    let len = self.nodes.len();
                    proof {
                        vstd::arithmetic::power2::lemma_pow2_pos(N as nat);
                        assert(child_place(first, 0) < self.nodes@.len());
                    }
                    let mut total = self.apply_at(first, on, theta, custom, law);
                    let mut k: usize = 1;
                    while k < count
                        invariant
                            0 < N < 32,
                            self.wf(),
                            1 <= k <= count,
                            count == pow2(N as nat),
                            node < self.nodes@.len(),
                            len == self.nodes@.len(),
                            self.nodes@[node as int] is Branch,
                            first == self.nodes@[node as int]->first_child,
                            models == model_at(self.nodes@, node as int)->Branch_nodes,
                            total@ == TreeModel::apply_children::<F, N>(
                                models,
                                k as nat,
                                on@,
                                theta,
                                custom,
                                *law,
                            ),
                        decreases count - k,
                    {
                        assert(node < child_place(first, k as int) < self.nodes@.len());
                        assert(models[k as int] == model_at(self.nodes@, first + k));
                        let part = self.apply_at(first + k, on, theta, custom, law);
                        total = total.plus(part);
                        k += 1;
                    }
                    total
                }
            },
            NodeN::Leaf { body, .. } => {
                match body {
                    Some(b) => {
                        let p = b.pos();
                        if on.equals(&p) {
                            return VecN::zero();
                        }
                        let dist = on.distance(p);
                        law.near(p, on, b.mass(), dist, custom, b.custom())
                    },
                    None => VecN::zero(),
                }
            },
        }
    }

    /// Compute the force applied on a virtual body at a given position
    pub fn apply<F: ForceLaw<T, L::Custom, N>>(
        &self,
        on: VecN<T, N>,
        theta: T,
        custom: L::Custom,
        law: &F,
    ) -> (f: VecN<T, N>)
        requires
            0 < N < 32,
            self.wf(),
        ensures
            f@ == self.model().apply::<F, N>(on@, theta, custom, *law),
    {
        self.apply_at(0, on, theta, custom, law)
    }
}

/// Insertion keeps a tree well formed.
pub proof fn lemma_add_body_keeps_wf<T: Coord, C>(
    tree: TreeModel<T, C>,
    b: BodyModel<T, C>,
    depth: nat,
    n: nat,
)
    requires
        tree.wf(n),
    ensures
        tree.add_body(b, depth).wf(n),
    decreases MAX_DEPTH + 1 - depth, tree,
{
    match tree {
        TreeModel::Branch { nodes, center, mass, center_of_mass, width } => {
            let k = child_index(b.pos, center, 0) as int;
            if k < nodes.len() {
                lemma_add_body_keeps_wf(nodes[k], b, next_depth(depth), n);
                let after = tree.add_body(b, depth);
                assert forall|j: int| 0 <= j < after->Branch_nodes.len() implies (
                #[trigger] after->Branch_nodes[j]).wf(n) by {
                    if j != k {
                        assert(nodes[j].wf(n));
                    }
                }
            }
        },
        TreeModel::Leaf { body: None, .. } => {},
        TreeModel::Leaf { body: Some(held), lo, hi } => {
            if !(depth > MAX_DEPTH || held.pos.distance_squared(b.pos).below_spec(T::one_spec())) {
                let split = TreeModel::<T, C>::subdivided(lo, hi);
                assert forall|k: int| 0 <= k < split->nodes.len() implies (
                #[trigger] split->nodes[k]).wf(n) by {
                    assert(split->nodes[k] is Leaf);
                }
                assert(split.wf(n));
                lemma_add_body_keeps_wf(split, held, next_depth(depth), n);
                lemma_add_body_keeps_wf(
                    split.add_body(held, next_depth(depth)),
                    b,
                    next_depth(depth),
                    n,
                );
            }
        },
    }
}

/// A body goes to the child that lies, on every axis, in the half in which
/// the body is: the upper half exactly where its position is not below the
/// centre.
pub proof fn lemma_child_index_halves<T: Coord>(pos: Seq<T>, center: Seq<T>, axis: nat, i: nat)
    requires
        axis + i < pos.len(),
    ensures
        upper_half(child_index(pos, center, axis), i) == !pos[(axis + i) as int].below_spec(
            center[(axis + i) as int],
        ),
    decreases i,
{
    if i > 0 {
        lemma_child_index_halves(pos, center, axis + 1, (i - 1) as nat);
    }
}

/// A branch keeps the totals of what lies beneath it at every insertion:
/// its mass grows by the mass of the body, and its centre of mass moves to
/// the mass-weighted mean of the two. Its box and the number of its
/// children stay.
pub proof fn lemma_branch_keeps_totals<T: Coord, C>(
    tree: TreeModel<T, C>,
    b: BodyModel<T, C>,
    depth: nat,
)
    requires
        tree is Branch,
        child_index(b.pos, tree->center, 0) < tree->nodes.len(),
    ensures
        tree.add_body(b, depth) is Branch,
        tree.add_body(b, depth)->mass == tree->mass.plus_spec(b.mass),
        tree.add_body(b, depth)->center_of_mass == centroid(
            tree->center_of_mass,
            tree->mass,
            b.pos,
            b.mass,
        ),
        tree.add_body(b, depth)->center == tree->center,
        tree.add_body(b, depth)->width == tree->width,
        tree.add_body(b, depth)->nodes.len() == tree->nodes.len(),
{
}

/// Coincident positions are safe: a body does not push a point that
/// compares equal to its position, nor does a branch push a point that
/// compares equal to its centre of mass, and an empty leaf pushes nothing.
/// No distance is taken and nothing is divided.
pub proof fn lemma_coincident_contributes_nothing<T: Coord, C, F: ForceLaw<T, C, N>, const N: usize>(
    tree: TreeModel<T, C>,
    on: Seq<T>,
    theta: T,
    custom: C,
    law: F,
)
    requires
        match tree {
            TreeModel::Branch { center_of_mass, .. } => on.vec_equals(center_of_mass),
            TreeModel::Leaf { body: Some(b), .. } => on.vec_equals(b.pos),
            TreeModel::Leaf { body: None, .. } => true,
        },
    ensures
        tree.apply::<F, N>(on, theta, custom, law) == Seq::<T>::zeros(on.len()),
{
}

/// The first `n` of `terms` added from the first on; the vector of `dim`
/// zeros when there is none
pub open spec fn sum_of<T: Coord>(terms: Seq<Seq<T>>, n: nat, dim: nat) -> Seq<T>
    decreases n,
{
    if n == 0 || n > terms.len() {
        Seq::<T>::zeros(dim)
    } else if n == 1 {
        terms[0]
    } else {
        sum_of(terms, (n - 1) as nat, dim).vec_plus(terms[n - 1])
    }
}

/// The force of the children of a branch is the sum of the forces of each.
pub proof fn lemma_children_add_up<T: Coord, C, F: ForceLaw<T, C, N>, const N: usize>(
    nodes: Seq<TreeModel<T, C>>,
    n: nat,
    on: Seq<T>,
    theta: T,
    custom: C,
    law: F,
)
    requires
        n <= nodes.len(),
    ensures
        TreeModel::apply_children::<F, N>(nodes, n, on, theta, custom, law) == sum_of(
            Seq::new(nodes.len(), |k: int| nodes[k].apply::<F, N>(on, theta, custom, law)),
            n,
            on.len(),
        ),
    decreases n,
{
    if n > 1 {
        lemma_children_add_up::<T, C, F, N>(nodes, (n - 1) as nat, on, theta, custom, law);
    }
}

/// Among zero vectors a single vector adds up to itself, where zero is
/// neutral for its coordinates and for zero itself.
pub proof fn lemma_lone_term_is_the_sum<T: Coord>(terms: Seq<Seq<T>>, k: int, n: nat, dim: nat)
    requires
        n <= terms.len(),
        terms[k].len() == dim,
        forall|j: int| 0 <= j < terms.len() && j != k ==> terms[j] == Seq::<T>::zeros(dim),
        zero_is_neutral(terms[k]),
        zero_is_neutral(Seq::<T>::zeros(dim)),
    ensures
        0 <= k < n ==> sum_of(terms, n, dim) == terms[k],
        !(0 <= k < n) ==> sum_of(terms, n, dim) == Seq::<T>::zeros(dim),
    decreases n,
{
    if n > 1 {
        lemma_lone_term_is_the_sum(terms, k, (n - 1) as nat, dim);
        let before = sum_of(terms, (n - 1) as nat, dim);
        let last = terms[n - 1];
        if k == n - 1 {
            assert(before.vec_plus(last) =~= last);
        } else if 0 <= k < n - 1 {
            assert(before.vec_plus(last) =~= before);
        } else {
            assert(before.vec_plus(last) =~= Seq::<T>::zeros(dim));
        }
    }
}

/// Whether, in the tree over the box `(lo, hi)` that holds `a` and then
/// `b`, one of the two sees the other as it is: the two are too far apart
/// to be merged, the first split parts them, the position of the one that
/// looks (`a` where `first`, else `b`) compares equal to itself and to
/// neither the position of the other nor the centre of mass of the two,
/// and the root is not approximated under `theta`. With `theta == 0` the
/// last holds when no ratio of width to distance is below zero.
pub open spec fn seen_apart<T: Coord, C>(
    lo: Seq<T>,
    hi: Seq<T>,
    a: BodyModel<T, C>,
    b: BodyModel<T, C>,
    first: bool,
    theta: T,
) -> bool {
    let center = TreeModel::<T, C>::subdivided(lo, hi)->center;
    let tree = (TreeModel::Leaf { body: None, lo, hi }).add_body(a, 0).add_body(b, 0);
    let on = if first {
        a.pos
    } else {
        b.pos
    };
    let other = if first {
        b.pos
    } else {
        a.pos
    };
    &&& !a.pos.distance_squared(b.pos).below_spec(T::one_spec())
    &&& child_index(a.pos, center, 0) != child_index(b.pos, center, 0)
    &&& on.vec_equals(on)
    &&& !on.vec_equals(other)
    &&& tree is Branch ==> {
        &&& !on.vec_equals(tree->center_of_mass)
        &&& !tree->width.over_spec(on.distance(tree->center_of_mass)).below_spec(theta)
    }
}

/// Exact traversal of two bodies: in a tree that holds two bodies `a` and
/// `b`, where one of them sees the other as it is (see [`seen_apart`]),
/// the force on the one that looks is the closed-form push of the other
/// alone, by the law for a single body, added in the place of the child
/// that holds the other to as many zero vectors as there are other
/// children.
pub proof fn lemma_two_bodies_push_pairwise<T: Coord, C, F: ForceLaw<T, C, N>, const N: usize>(
    lo: Seq<T>,
    hi: Seq<T>,
    a: BodyModel<T, C>,
    b: BodyModel<T, C>,
    first: bool,
    theta: T,
    custom: C,
    law: F,
)
    requires
        lo.len() == N,
        hi.len() == N,
        a.pos.len() == N,
        b.pos.len() == N,
        seen_apart(lo, hi, a, b, first, theta),
    ensures
        ({
            let tree = (TreeModel::Leaf { body: None, lo, hi }).add_body(a, 0).add_body(b, 0);
            let center = TreeModel::<T, C>::subdivided(lo, hi)->center;
            let me = if first {
                a
            } else {
                b
            };
            let other = if first {
                b
            } else {
                a
            };
            let push = law.near_spec(
                other.pos,
                me.pos,
                other.mass,
                me.pos.distance(other.pos),
                custom,
                other.custom,
            );
            tree.apply::<F, N>(me.pos, theta, custom, law) == sum_of(
                Seq::new(
                    pow2(N as nat),
                    |k: int|
                        if k == child_index(other.pos, center, 0) {
                            push
                        } else {
                            Seq::<T>::zeros(N as nat)
                        },
                ),
                pow2(N as nat),
                N as nat,
            )
        }),
{
    let empty = TreeModel::Leaf { body: None::<BodyModel<T, C>>, lo, hi };
    let one_body = empty.add_body(a, 0);
    assert(one_body == (TreeModel::Leaf { body: Some(a), lo, hi }));
    let split = TreeModel::<T, C>::subdivided(lo, hi);
    let center = split->center;
    let ka = child_index(a.pos, center, 0) as int;
    let kb = child_index(b.pos, center, 0) as int;
    lemma_child_index_bound(a.pos, center, 0);
    lemma_child_index_bound(b.pos, center, 0);
    let with_a = split.add_body(a, 1);
    let tree = with_a.add_body(b, 1);
    assert(one_body.add_body(b, 0) == tree) by {
        assert(next_depth(0) == 1);
    }
    assert(split->nodes[ka].add_body(a, 2) == (TreeModel::Leaf {
        body: Some(a),
        lo: child_lo(lo, center, ka as nat),
        hi: child_hi(hi, center, ka as nat),
    }));
    assert(with_a->nodes[kb] == split->nodes[kb]);
    assert(with_a->nodes[kb].add_body(b, 2) == (TreeModel::Leaf {
        body: Some(b),
        lo: child_lo(lo, center, kb as nat),
        hi: child_hi(hi, center, kb as nat),
    }));
    let nodes = tree->nodes;
    assert(nodes.len() == pow2(N as nat));
    let me = if first {
        a
    } else {
        b
    };
    let other = if first {
        b
    } else {
        a
    };
    let push = law.near_spec(
        other.pos,
        me.pos,
        other.mass,
        me.pos.distance(other.pos),
        custom,
        other.custom,
    );
    let terms = Seq::new(nodes.len(), |k: int| nodes[k].apply::<F, N>(me.pos, theta, custom, law));
    let lone = Seq::new(
        pow2(N as nat),
        |k: int|
            if k == child_index(other.pos, center, 0) {
                push
            } else {
                Seq::<T>::zeros(N as nat)
            },
    );
    assert forall|k: int| 0 <= k < nodes.len() implies terms[k] == lone[k] by {
        if k == kb {
            assert(nodes[k] == with_a->nodes[kb].add_body(b, 2));
        } else if k == ka {
            assert(nodes[k] == with_a->nodes[k]);
        } else {
            assert(nodes[k] == split->nodes[k]);
        }
    }
    assert(terms =~= lone);
    lemma_children_add_up::<T, C, F, N>(nodes, nodes.len(), me.pos, theta, custom, law);
}

} // verus!
