//! Scalars, fixed-size vectors and small helpers on `Vec`.
//!
//! The layout is generic over its scalar. A scalar type implements [`Coord`]:
//! each of its operations is a function of its arguments, named by a `spec`
//! counterpart, and nothing else is asked of it. Vectors are modelled by the
//! sequence of their coordinates, and [`CoordSeq`] says what the vector
//! operations compute, coordinate by coordinate and in which order.

use vstd::prelude::*;

verus! {

/// Undirected graph edge indexing its two nodes
pub type Edge = (usize, usize);

/// The scalar of a layout: a number with ordering, arithmetic, square root
/// and `ln(1 + x)`.
///
/// Every operation is deterministic: its result is the value that the
/// `_spec` function of the same name gives for the same arguments. No
/// algebraic law is asked of an implementation, so rounding, infinities and
/// values that compare unequal to themselves are all admitted; what the
/// library proves holds of any such scalar. The division never fails: a
/// scalar type says by itself what dividing by zero gives.
///
/// The library implements this trait for no type, and proves nothing of
/// an implementation: that an operation returns what its `_spec` function
/// names is the promise of whoever implements the trait. An implementation
/// in plain Rust gives each `_spec` function the body of its operation.
pub trait Coord: Copy + Sized {
    /// The additive identity
    spec fn zero_spec() -> Self;

    /// The additive identity
    fn zero() -> (r: Self)
        ensures
            r == Self::zero_spec(),
    ;

    /// The multiplicative identity
    spec fn one_spec() -> Self;

    /// The multiplicative identity
    fn one() -> (r: Self)
        ensures
            r == Self::one_spec(),
    ;

    /// `self + rhs`
    spec fn plus_spec(self, rhs: Self) -> Self;

    /// `self + rhs`
    fn plus(self, rhs: Self) -> (r: Self)
        ensures
            r == self.plus_spec(rhs),
    ;

    /// `self - rhs`
    spec fn minus_spec(self, rhs: Self) -> Self;

    /// `self - rhs`
    fn minus(self, rhs: Self) -> (r: Self)
        ensures
            r == self.minus_spec(rhs),
    ;

    /// `self * rhs`
    spec fn times_spec(self, rhs: Self) -> Self;

    /// `self * rhs`
    fn times(self, rhs: Self) -> (r: Self)
        ensures
            r == self.times_spec(rhs),
    ;

    /// `self / rhs`
    spec fn over_spec(self, rhs: Self) -> Self;

    /// `self / rhs`
    fn over(self, rhs: Self) -> (r: Self)
        ensures
            r == self.over_spec(rhs),
    ;

    /// `-self`
    spec fn negated_spec(self) -> Self;

    /// `-self`
    fn negated(self) -> (r: Self)
        ensures
            r == self.negated_spec(),
    ;

    /// The square root of `self`
    spec fn sqrt_spec(self) -> Self;

    /// The square root of `self`
    fn sqrt(self) -> (r: Self)
        ensures
            r == self.sqrt_spec(),
    ;

    /// `ln(1 + self)`
    spec fn ln_1p_spec(self) -> Self;

    /// `ln(1 + self)`
    fn ln_1p(self) -> (r: Self)
        ensures
            r == self.ln_1p_spec(),
    ;

    /// `self == rhs`, as the scalar type compares
    spec fn equals_spec(self, rhs: Self) -> bool;

    /// `self == rhs`, as the scalar type compares
    fn equals(self, rhs: Self) -> (r: bool)
        ensures
            r == self.equals_spec(rhs),
    ;

    /// `self < rhs`
    spec fn below_spec(self, rhs: Self) -> bool;

    /// `self < rhs`
    fn below(self, rhs: Self) -> (r: bool)
        ensures
            r == self.below_spec(rhs),
    ;

    /// `self <= rhs`
    spec fn at_most_spec(self, rhs: Self) -> bool;

    /// `self <= rhs`
    fn at_most(self, rhs: Self) -> (r: bool)
        ensures
            r == self.at_most_spec(rhs),
    ;
}

/// What the vector operations compute, on the sequence of coordinates that
/// models a vector.
pub trait CoordSeq<T: Coord>: Sized {
    /// The vector of `n` zeros
    spec fn zeros(n: nat) -> Self;

    /// Coordinate-wise sum
    spec fn vec_plus(self, rhs: Self) -> Self;

    /// Coordinate-wise difference
    spec fn vec_minus(self, rhs: Self) -> Self;

    /// Every coordinate multiplied by `k`
    spec fn scaled(self, k: T) -> Self;

    /// Every coordinate divided by `k`
    spec fn divided(self, k: T) -> Self;

    /// Every coordinate negated
    spec fn vec_negated(self) -> Self;

    /// The squares of the first `n` coordinates, added to zero from the
    /// first coordinate on
    spec fn square_sum(self, n: nat) -> T;

    /// Squared norm: the squares of all coordinates, added in order
    spec fn norm_squared(self) -> T;

    /// Squared distance to `rhs`
    spec fn distance_squared(self, rhs: Self) -> T;

    /// Distance to `rhs`
    spec fn distance(self, rhs: Self) -> T;

    /// Whether the first `n` coordinates of both vectors compare equal
    spec fn equal_upto(self, rhs: Self, n: nat) -> bool;

    /// Whether the two vectors have the same length and every coordinate
    /// compares equal
    spec fn vec_equals(self, rhs: Self) -> bool;
}

impl<T: Coord> CoordSeq<T> for Seq<T> {
    open spec fn zeros(n: nat) -> Seq<T> {
        Seq::new(n, |i: int| T::zero_spec())
    }

    open spec fn vec_plus(self, rhs: Seq<T>) -> Seq<T> {
        Seq::new(self.len(), |i: int| self[i].plus_spec(rhs[i]))
    }

    open spec fn vec_minus(self, rhs: Seq<T>) -> Seq<T> {
        Seq::new(self.len(), |i: int| self[i].minus_spec(rhs[i]))
    }

    open spec fn scaled(self, k: T) -> Seq<T> {
        Seq::new(self.len(), |i: int| self[i].times_spec(k))
    }

    open spec fn divided(self, k: T) -> Seq<T> {
        Seq::new(self.len(), |i: int| self[i].over_spec(k))
    }

    open spec fn vec_negated(self) -> Seq<T> {
        Seq::new(self.len(), |i: int| self[i].negated_spec())
    }

    open spec fn square_sum(self, n: nat) -> T
        decreases n,
    {
        if n == 0 {
            T::zero_spec()
        } else {
            self.square_sum((n - 1) as nat).plus_spec(self[n - 1].times_spec(self[n - 1]))
        }
    }

    open spec fn norm_squared(self) -> T {
        self.square_sum(self.len())
    }

    open spec fn distance_squared(self, rhs: Seq<T>) -> T {
        self.vec_minus(rhs).norm_squared()
    }

    open spec fn distance(self, rhs: Seq<T>) -> T {
        self.distance_squared(rhs).sqrt_spec()
    }

    open spec fn equal_upto(self, rhs: Seq<T>, n: nat) -> bool {
        forall|i: int| 0 <= i < n ==> (#[trigger] self[i]).equals_spec(rhs[i])
    }

    open spec fn vec_equals(self, rhs: Seq<T>) -> bool {
        self.len() == rhs.len() && self.equal_upto(rhs, self.len())
    }
}

/// Whether zero is neutral for every coordinate of `x`: `0 + x` and `x + 0`
/// are `x`, and `0 - x` is `-x`. No scalar is asked to have this of all its
/// values; a law that needs it says so.
pub open spec fn zero_is_neutral<T: Coord>(x: Seq<T>) -> bool {
    forall|i: int|
        0 <= i < x.len() ==> {
            &&& T::zero_spec().plus_spec(#[trigger] x[i]) == x[i]
            &&& x[i].plus_spec(T::zero_spec()) == x[i]
            &&& T::zero_spec().minus_spec(x[i]) == x[i].negated_spec()
        }
}

/// N-dimensional vector
#[derive(Debug, PartialEq)]
pub struct VecN<T, const N: usize>(pub [T; N]);

impl<T: Copy, const N: usize> Clone for VecN<T, N> {
    fn clone(&self) -> (r: Self)
        ensures
            r == *self,
    {
        *self
    }
}

impl<T: Copy, const N: usize> Copy for VecN<T, N> {

}

impl<T, const N: usize> View for VecN<T, N> {
    type V = Seq<T>;

    /// The coordinates, in order
    open spec fn view(&self) -> Seq<T> {
        self.0@
    }
}

impl<T: Coord, const N: usize> VecN<T, N> {
    /// The vector whose coordinates are all zero
    pub fn zero() -> (r: Self)
        ensures
            r@ == Seq::<T>::zeros(N as nat),
    {
        let r = VecN([T::zero();N]);
        assert(r@ =~= Seq::<T>::zeros(N as nat));
        r
    }

    /// Whether every coordinate compares equal to zero
    pub fn is_zero(&self) -> (r: bool)
        ensures
            r == self@.vec_equals(Seq::<T>::zeros(N as nat)),
    {
        let zero = T::zero();
        let mut i: usize = 0;
        while i < N
            invariant
                i <= N,
                zero == T::zero_spec(),
                self@.equal_upto(Seq::<T>::zeros(N as nat), i as nat),
            decreases N - i,
        {
            if !self.0[i].equals(zero) {
                return false;
            }
            i += 1;
        }
        true
    }

    /// Whether every coordinate compares equal to that of `rhs`
    pub fn equals(&self, rhs: &Self) -> (r: bool)
        ensures
            r == self@.vec_equals(rhs@),
    {
        let mut i: usize = 0;
        while i < N
            invariant
                i <= N,
                self@.equal_upto(rhs@, i as nat),
            decreases N - i,
        {
            if !self.0[i].equals(rhs.0[i]) {
                return false;
            }
            i += 1;
        }
        true
    }

    /// Coordinate-wise sum
    pub fn plus(self, rhs: Self) -> (r: Self)
        ensures
            r@ == self@.vec_plus(rhs@),
    {
        let mut out = self;
        let mut i: usize = 0;
        while i < N
            invariant
                i <= N,
                forall|j: int| 0 <= j < i ==> out@[j] == self@[j].plus_spec(rhs@[j]),
                forall|j: int| i <= j < N ==> out@[j] == self@[j],
            decreases N - i,
        {
            out.0[i] = self.0[i].plus(rhs.0[i]);
            i += 1;
        }
        assert(out@ =~= self@.vec_plus(rhs@));
        out
    }

    /// Coordinate-wise difference
    pub fn minus(self, rhs: Self) -> (r: Self)
        ensures
            r@ == self@.vec_minus(rhs@),
    {
        let mut out = self;
        let mut i: usize = 0;
        while i < N
            invariant
                i <= N,
                forall|j: int| 0 <= j < i ==> out@[j] == self@[j].minus_spec(rhs@[j]),
                forall|j: int| i <= j < N ==> out@[j] == self@[j],
            decreases N - i,
        {
            out.0[i] = self.0[i].minus(rhs.0[i]);
            i += 1;
        }
        assert(out@ =~= self@.vec_minus(rhs@));
        out
    }

    /// Adds `rhs` to `self`, coordinate by coordinate
    pub fn plus_assign(&mut self, rhs: Self)
        ensures
            final(self)@ == old(self)@.vec_plus(rhs@),
    {
        *self = self.plus(rhs);
    }

    /// Subtracts `rhs` from `self`, coordinate by coordinate
    pub fn minus_assign(&mut self, rhs: Self)
        ensures
            final(self)@ == old(self)@.vec_minus(rhs@),
    {
        *self = self.minus(rhs);
    }

    /// Every coordinate multiplied by `k`
    pub fn times(self, k: T) -> (r: Self)
        ensures
            r@ == self@.scaled(k),
    {
        let mut out = self;
        let mut i: usize = 0;
        while i < N
            invariant
                i <= N,
                forall|j: int| 0 <= j < i ==> out@[j] == self@[j].times_spec(k),
                forall|j: int| i <= j < N ==> out@[j] == self@[j],
            decreases N - i,
        {
            out.0[i] = self.0[i].times(k);
            i += 1;
        }
        assert(out@ =~= self@.scaled(k));
        out
    }

    /// Every coordinate divided by `k`
    pub fn over(self, k: T) -> (r: Self)
        ensures
            r@ == self@.divided(k),
    {
        let mut out = self;
        let mut i: usize = 0;
        while i < N
            invariant
                i <= N,
                forall|j: int| 0 <= j < i ==> out@[j] == self@[j].over_spec(k),
                forall|j: int| i <= j < N ==> out@[j] == self@[j],
            decreases N - i,
        {
            out.0[i] = self.0[i].over(k);
            i += 1;
        }
        assert(out@ =~= self@.divided(k));
        out
    }

    /// Every coordinate negated
    pub fn negated(self) -> (r: Self)
        ensures
            r@ == self@.vec_negated(),
    {
        let mut out = self;
        let mut i: usize = 0;
        while i < N
            invariant
                i <= N,
                forall|j: int| 0 <= j < i ==> out@[j] == self@[j].negated_spec(),
                forall|j: int| i <= j < N ==> out@[j] == self@[j],
            decreases N - i,
        {
            out.0[i] = self.0[i].negated();
            i += 1;
        }
        assert(out@ =~= self@.vec_negated());
        out
    }

    /// Square norm
    pub fn norm_squared(self) -> (r: T)
        ensures
            r == self@.norm_squared(),
    {
        let mut s = T::zero();
        let mut i: usize = 0;
        while i < N
            invariant
                i <= N,
                s == self@.square_sum(i as nat),
            decreases N - i,
        {
            s = s.plus(self.0[i].times(self.0[i]));
            i += 1;
        }
        s
    }

    /// Square distance to rhs
    pub fn distance_squared(self, rhs: Self) -> (r: T)
        ensures
            r == self@.distance_squared(rhs@),
    {
        self.minus(rhs).norm_squared()
    }

    /// Distance to rhs
    pub fn distance(self, rhs: Self) -> (r: T)
        ensures
            r == self@.distance(rhs@),
    {
        self.distance_squared(rhs).sqrt()
    }
}

impl<T, const N: usize> VecN<T, N> {
    /// Iterate through the vector's coordinates
    pub fn iter(&self) -> (it: core::slice::Iter<'_, T>)
        ensures
            vstd::std_specs::iter::IteratorSpec::remaining(&it) == self@.as_ref(),
    {
        let s = self.0.as_slice();
        proof {
            vstd::std_specs::slice::axiom_spec_slice_iter(s);
        }
        s.iter()
    }
}

/// 2D vector
pub type Vec2<T> = VecN<T, 2>;

/// 3D vector
pub type Vec3<T> = VecN<T, 3>;

impl<T> Vec2<T> {
    /// Create 2D vector from coordinates
    pub fn new(x: T, y: T) -> (r: Self)
        ensures
            r@ == seq![x, y],
    {
        let r = VecN([x, y]);
        assert(r@ =~= seq![x, y]);
        r
    }

    /// Get x coordinate
    pub fn x(&self) -> (r: T) where T: Copy
        ensures
            r == self@[0],
    {
        self.0[0]
    }

    /// Get y coordinate
    pub fn y(&self) -> (r: T) where T: Copy
        ensures
            r == self@[1],
    {
        self.0[1]
    }
}

impl<T> Vec3<T> {
    /// Create 3D vector from coordinates
    pub fn new(x: T, y: T, z: T) -> (r: Self)
        ensures
            r@ == seq![x, y, z],
    {
        let r = VecN([x, y, z]);
        assert(r@ =~= seq![x, y, z]);
        r
    }

    /// Get x coordinate
    pub fn x(&self) -> (r: T) where T: Copy
        ensures
            r == self@[0],
    {
        self.0[0]
    }

    /// Get y coordinate
    pub fn y(&self) -> (r: T) where T: Copy
        ensures
            r == self@[1],
    {
        self.0[1]
    }

    /// Get z coordinate
    pub fn z(&self) -> (r: T) where T: Copy
        ensures
            r == self@[2],
    {
        self.0[2]
    }
}

/// Two items of a slice at once, the first before the second
pub fn get_2_mut<T>(s: &mut [T], i1: usize, i2: usize) -> (items: (&mut T, &mut T))
    requires
        i1 < i2 < old(s)@.len(),
    ensures
        *items.0 == old(s)@[i1 as int],
        *items.1 == old(s)@[i2 as int],
        final(s)@ == old(s)@.update(i1 as int, *final(items.0)).update(i2 as int, *final(items.1)),
{
    let (s1, s2) = s.split_at_mut(i2);
    (&mut s1[i1], &mut s2[0])
}

/// What [`drain_filter_swap`] leaves of `s`, in the order in which it leaves
/// it: an item that `keep` accepts stays where it is; one that it refuses is
/// replaced by the last item, which is examined in its turn.
pub open spec fn swap_filter<T>(s: Seq<T>, keep: spec_fn(T) -> bool) -> Seq<T>
    decreases s.len(),
{
    if s.len() == 0 {
        s
    } else if keep(s[0]) {
        seq![s[0]] + swap_filter(s.drop_first(), keep)
    } else {
        swap_filter(s.update(0, s.last()).drop_last(), keep)
    }
}

/// [`swap_filter`] keeps exactly the items that `keep` accepts, each as often
/// as it occurs.
pub proof fn lemma_swap_filter_keeps<T>(s: Seq<T>, keep: spec_fn(T) -> bool)
    ensures
        swap_filter(s, keep).to_multiset() == s.to_multiset().filter(keep),
    decreases s.len(),
{
    broadcast use vstd::seq_lib::group_to_multiset_ensures;

    if s.len() == 0 {
        assert(swap_filter(s, keep).to_multiset() =~= s.to_multiset().filter(keep));
    } else if keep(s[0]) {
        let rest = s.drop_first();
        lemma_swap_filter_keeps(rest, keep);
        assert(s =~= seq![s[0]] + rest);
        vstd::seq_lib::lemma_multiset_commutative(seq![s[0]], rest);
        vstd::seq_lib::lemma_multiset_commutative(seq![s[0]], swap_filter(rest, keep));
        assert(seq![s[0]] =~= Seq::<T>::empty().push(s[0]));
        assert(seq![s[0]].to_multiset() =~= vstd::multiset::Multiset::singleton(s[0]));
        assert(swap_filter(s, keep).to_multiset() =~= s.to_multiset().filter(keep));
    } else {
        let moved = s.update(0, s.last()).drop_last();
        lemma_swap_filter_keeps(moved, keep);
        assert(s.to_multiset().filter(keep) =~= moved.to_multiset().filter(keep)) by {
            if s.len() == 1 {
                assert(moved =~= Seq::<T>::empty());
                assert(s =~= Seq::<T>::empty().push(s[0]));
            } else {
                // s = [s0] + mid + [last], moved = [last] + mid
                let mid = s.subrange(1, s.len() - 1);
                assert(s =~= (seq![s[0]] + mid).push(s.last()));
                assert(moved =~= seq![s.last()] + mid);
                vstd::seq_lib::lemma_multiset_commutative(seq![s[0]], mid);
                vstd::seq_lib::lemma_multiset_commutative(seq![s.last()], mid);
                assert(seq![s[0]] =~= Seq::<T>::empty().push(s[0]));
                assert(seq![s.last()] =~= Seq::<T>::empty().push(s.last()));
            }
        }
    }
}

/// Whether `keep` is what `filter` answers: whatever the filter may return
/// for an item is `keep` of that item
pub open spec fn answers<T, F: Fn(&T) -> bool>(filter: F, keep: spec_fn(T) -> bool) -> bool {
    forall|x: T, b: bool| #[trigger] call_ensures(filter, (&x,), b) ==> b == keep(x)
}

/// Keeps only items for which filter returns true.
/// Does not preserve order.
///
/// The filter must take every item of the vector. Whatever it answers,
/// the vector does not grow, holds only items that it held, none more often
/// than before, each item left is one that the filter accepted, and each
/// item that is gone, or is there less often, is one that the filter
/// refused. With `keep` what the filter answers, the items that are left
/// are those that `keep` accepts, each as often as it occurred, in the
/// order that [`swap_filter`] gives.
pub fn drain_filter_swap<T, F: Fn(&T) -> bool>(v: &mut Vec<T>, filter: F)
    requires
        forall|j: int|
            0 <= j < old(v)@.len() ==> call_requires(filter, (&#[trigger] old(v)@[j],)),
    ensures
        final(v)@.len() <= old(v)@.len(),
        forall|j: int| 0 <= j < final(v)@.len() ==> old(v)@.contains(#[trigger] final(v)@[j]),
        final(v)@.to_multiset().subset_of(old(v)@.to_multiset()),
        forall|j: int|
            0 <= j < final(v)@.len() ==> call_ensures(filter, (&#[trigger] final(v)@[j],), true),
        forall|x: T|
            old(v)@.to_multiset().count(x) > #[trigger] final(v)@.to_multiset().count(x)
                ==> call_ensures(filter, (&x,), false),
        forall|keep: spec_fn(T) -> bool| #[trigger]
            answers(filter, keep) ==> {
                &&& final(v)@ == swap_filter(old(v)@, keep)
                &&& final(v)@.to_multiset() == old(v)@.to_multiset().filter(keep)
            },
{
    let mut i: usize = 0;
    assert forall|keep: spec_fn(T) -> bool| #[trigger] answers(filter, keep) implies swap_filter(
        old(v)@,
        keep,
    ) == v@.subrange(0, 0) + swap_filter(v@.subrange(0, v@.len() as int), keep) by {
        assert(v@.subrange(0, v@.len() as int) =~= v@);
        assert(v@.subrange(0, 0) + swap_filter(v@, keep) =~= swap_filter(v@, keep));
    }
    while i < v.len()
        invariant
            i <= v@.len(),
            v@.len() <= old(v)@.len(),
            forall|j: int| 0 <= j < v@.len() ==> old(v)@.contains(#[trigger] v@[j]),
            v@.to_multiset().subset_of(old(v)@.to_multiset()),
            forall|j: int| 0 <= j < i ==> call_ensures(filter, (&#[trigger] v@[j],), true),
            forall|x: T|
                old(v)@.to_multiset().count(x) > #[trigger] v@.to_multiset().count(x)
                    ==> call_ensures(filter, (&x,), false),
            forall|j: int|
                0 <= j < old(v)@.len() ==> call_requires(filter, (&#[trigger] old(v)@[j],)),
            forall|keep: spec_fn(T) -> bool| #[trigger]
                answers(filter, keep) ==> swap_filter(old(v)@, keep) == v@.subrange(0, i as int)
                    + swap_filter(v@.subrange(i as int, v@.len() as int), keep),
        decreases v@.len() - i,
    {
        let ghost before = v@;
        let ghost rest = v@.subrange(i as int, v@.len() as int);
        proof {
            assert(old(v)@.contains(v@[i as int]));
            let k = choose|k: int| 0 <= k < old(v)@.len() && old(v)@[k] == v@[i as int];
            assert(call_requires(filter, (&old(v)@[k],)));
        }
        if filter(&v[i]) {
            i += 1;
            assert forall|keep: spec_fn(T) -> bool| #[trigger]
                answers(filter, keep) implies swap_filter(old(v)@, keep) == v@.subrange(0, i as int)
                + swap_filter(v@.subrange(i as int, v@.len() as int), keep) by {
                assert(keep(rest[0]));
                assert(rest.drop_first() =~= v@.subrange(i as int, v@.len() as int));
                assert(v@.subrange(0, i as int) =~= before.subrange(0, i - 1) + seq![rest[0]]);
                assert(before.subrange(0, i - 1) + (seq![rest[0]] + swap_filter(
                    rest.drop_first(),
                    keep,
                )) =~= (before.subrange(0, i - 1) + seq![rest[0]]) + swap_filter(
                    rest.drop_first(),
                    keep,
                ));
            }
        } else {
            v.swap_remove(i);
            assert forall|j: int| 0 <= j < v@.len() implies old(v)@.contains(#[trigger] v@[j]) by {
                if j == i {
                    assert(v@[j] == before[before.len() - 1]);
                } else {
                    assert(v@[j] == before[j]);
                }
            }
            assert(v@.to_multiset() =~= before.to_multiset().remove(before[i as int])) by {
                broadcast use vstd::multiset::group_multiset_axioms;

                let moved = before.update(i as int, before.last());
                vstd::seq_lib::to_multiset_update(before, i as int, before.last());
                vstd::seq_lib::to_multiset_remove(moved, moved.len() - 1);
                assert(v@ =~= moved.remove(moved.len() - 1));
                before.to_multiset_ensures();
                assert(before.contains(before[i as int]));
                assert(before.contains(before.last()));
            }
            assert(v@.to_multiset().subset_of(before.to_multiset())) by {
                broadcast use vstd::multiset::group_multiset_axioms;

            }
            assert forall|x: T|
                old(v)@.to_multiset().count(x) > #[trigger] v@.to_multiset().count(
                    x,
                ) implies call_ensures(filter, (&x,), false) by {
                broadcast use vstd::multiset::group_multiset_axioms;

                if x != before[i as int] {
                    assert(v@.to_multiset().count(x) == before.to_multiset().count(x));
                }
            }
            assert forall|keep: spec_fn(T) -> bool| #[trigger]
                answers(filter, keep) implies swap_filter(old(v)@, keep) == v@.subrange(0, i as int)
                + swap_filter(v@.subrange(i as int, v@.len() as int), keep) by {
                assert(!keep(rest[0]));
                assert(v@.subrange(i as int, v@.len() as int) =~= rest.update(
                    0,
                    rest.last(),
                ).drop_last());
                assert(v@.subrange(0, i as int) =~= before.subrange(0, i as int));
            }
        }
    }
    assert forall|keep: spec_fn(T) -> bool| #[trigger] answers(filter, keep) implies v@
        == swap_filter(old(v)@, keep) && v@.to_multiset() == old(v)@.to_multiset().filter(keep) by {
        assert(v@.subrange(i as int, v@.len() as int) =~= Seq::<T>::empty());
        assert(v@.subrange(0, i as int) =~= v@);
        assert(v@ + Seq::<T>::empty() =~= v@);
        lemma_swap_filter_keeps(old(v)@, keep);
    }
}

} // verus!
