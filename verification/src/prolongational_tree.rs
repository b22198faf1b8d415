use vstd::prelude::*;
use crate::pitch_class_space::{PitchClassSpace, lemma_total_distance_bound};
use crate::lerdahl::{chord_dist, chord_dist_defined};

verus! {

/// Prolongational Tree
#[derive(Debug)]
pub enum Tree<T> {
    Leaf(T),
    Tensing(Box<Tree<T>>, Box<Tree<T>>, Strength),
    Relaxing(Box<Tree<T>>, Box<Tree<T>>, Strength),
}

#[derive(Debug, Clone, Copy, PartialEq, Eq, Structural)]
pub enum Strength {
    Strong,
    Weak,
    Progression,
}

/// The name of a strength: "strong", "weak" or "progression".
pub open spec fn strength_text(s: Strength) -> Seq<char> {
    match s {
        Strength::Strong => "strong"@,
        Strength::Weak => "weak"@,
        Strength::Progression => "progression"@,
    }
}

impl Strength {
    /// The name of the strength.
    pub fn to_string(&self) -> (r: String)
        ensures
            r@ == strength_text(*self),
    {
        let mut r = String::new();
        match self {
            Strength::Strong => crate::text::push_str(&mut r, "strong"),
            Strength::Weak => crate::text::push_str(&mut r, "weak"),
            Strength::Progression => crate::text::push_str(&mut r, "progression"),
        }
        r
    }
}

/// The leaves of a tree, from left to right.
pub open spec fn leaves<T>(t: Tree<T>) -> Seq<T>
    decreases t,
{
    match t {
        Tree::Leaf(v) => seq![v],
        Tree::Tensing(l, r, _) => leaves(*l) + leaves(*r),
        Tree::Relaxing(l, r, _) => leaves(*l) + leaves(*r),
    }
}

pub open spec fn count_tensing_spec<T>(t: Tree<T>) -> nat
    decreases t,
{
    match t {
        Tree::Leaf(_) => 0,
        Tree::Tensing(l, r, _) => 1 + count_tensing_spec(*l) + count_tensing_spec(*r),
        Tree::Relaxing(l, r, _) => count_tensing_spec(*l) + count_tensing_spec(*r),
    }
}

pub open spec fn count_relaxing_spec<T>(t: Tree<T>) -> nat
    decreases t,
{
    match t {
        Tree::Leaf(_) => 0,
        Tree::Tensing(l, r, _) => count_relaxing_spec(*l) + count_relaxing_spec(*r),
        Tree::Relaxing(l, r, _) => 1 + count_relaxing_spec(*l) + count_relaxing_spec(*r),
    }
}

pub open spec fn count_branchings_spec<T>(t: Tree<T>, tensing: bool) -> nat {
    if tensing {
        count_tensing_spec(t)
    } else {
        count_relaxing_spec(t)
    }
}

/// The tree without its rightmost leaf: the parent of that leaf is replaced by its left child.
pub open spec fn without_last<T>(t: Tree<T>) -> Tree<T>
    decreases t,
{
    match t {
        Tree::Leaf(v) => Tree::Leaf(v),
        Tree::Tensing(l, r, s) => if *r is Leaf {
            *l
        } else {
            Tree::Tensing(l, Box::new(without_last(*r)), s)
        },
        Tree::Relaxing(l, r, s) => if *r is Leaf {
            *l
        } else {
            Tree::Relaxing(l, Box::new(without_last(*r)), s)
        },
    }
}

/// The tree without its leftmost leaf: the parent of that leaf is replaced by its right child.
pub open spec fn without_first<T>(t: Tree<T>) -> Tree<T>
    decreases t,
{
    match t {
        Tree::Leaf(v) => Tree::Leaf(v),
        Tree::Tensing(l, r, s) => if *l is Leaf {
            *r
        } else {
            Tree::Tensing(Box::new(without_first(*l)), r, s)
        },
        Tree::Relaxing(l, r, s) => if *l is Leaf {
            *r
        } else {
            Tree::Relaxing(Box::new(without_first(*l)), r, s)
        },
    }
}

/// A tree always has at least one leaf.
pub proof fn lemma_leaves_nonempty<T>(t: Tree<T>)
    ensures
        leaves(t).len() >= 1,
    decreases t,
{
    match t {
        Tree::Leaf(_) => {},
        Tree::Tensing(l, r, _) => {
            lemma_leaves_nonempty(*l);
        },
        Tree::Relaxing(l, r, _) => {
            lemma_leaves_nonempty(*l);
        },
    }
}

/// Removing the last leaf of a branching drops exactly the last element of its leaves.
pub proof fn lemma_without_last_leaves<T>(t: Tree<T>)
    requires
        !(t is Leaf),
    ensures
        leaves(without_last(t)) == leaves(t).drop_last(),
    decreases t,
{
    match t {
        Tree::Leaf(_) => {},
        Tree::Tensing(l, r, _) => {
            lemma_leaves_nonempty(*l);
            if !(*r is Leaf) {
                lemma_without_last_leaves(*r);
                lemma_leaves_nonempty(*r);
            }
            assert(leaves(without_last(t)) =~= leaves(t).drop_last());
        },
        Tree::Relaxing(l, r, _) => {
            lemma_leaves_nonempty(*l);
            if !(*r is Leaf) {
                lemma_without_last_leaves(*r);
                lemma_leaves_nonempty(*r);
            }
            assert(leaves(without_last(t)) =~= leaves(t).drop_last());
        },
    }
}

/// Removing the first leaf of a branching drops exactly the first element of its leaves.
pub proof fn lemma_without_first_leaves<T>(t: Tree<T>)
    requires
        !(t is Leaf),
    ensures
        leaves(without_first(t)) == leaves(t).drop_first(),
    decreases t,
{
    match t {
        Tree::Leaf(_) => {},
        Tree::Tensing(l, r, _) => {
            lemma_leaves_nonempty(*r);
            lemma_leaves_nonempty(*l);
            if !(*l is Leaf) {
                lemma_without_first_leaves(*l);
                assert(leaves(without_first(t)) == leaves(without_first(*l)) + leaves(*r));
            } else {
                assert(leaves(without_first(t)) == leaves(*r));
                assert(leaves(*l).len() == 1);
            }
            assert(leaves(without_first(t)) =~= leaves(t).drop_first());
        },
        Tree::Relaxing(l, r, _) => {
            lemma_leaves_nonempty(*r);
            lemma_leaves_nonempty(*l);
            if !(*l is Leaf) {
                lemma_without_first_leaves(*l);
                assert(leaves(without_first(t)) == leaves(without_first(*l)) + leaves(*r));
            } else {
                assert(leaves(without_first(t)) == leaves(*r));
                assert(leaves(*l).len() == 1);
            }
            assert(leaves(without_first(t)) =~= leaves(t).drop_first());
        },
    }
}

impl<T> Tree<T> {
    pub fn count_tensing(&self) -> (n: usize)
        requires
            count_tensing_spec(*self) <= usize::MAX,
        ensures
            n == count_tensing_spec(*self),
        decreases self,
    {
        match self {
            Tree::Leaf(_) => 0,
            Tree::Tensing(left, right, _) => 1 + left.count_tensing() + right.count_tensing(),
            Tree::Relaxing(left, right, _) => left.count_tensing() + right.count_tensing(),
        }
    }

    pub fn count_relaxing(&self) -> (n: usize)
        requires
            count_relaxing_spec(*self) <= usize::MAX,
        ensures
            n == count_relaxing_spec(*self),
        decreases self,
    {
        match self {
            Tree::Leaf(_) => 0,
            Tree::Tensing(left, right, _) => left.count_relaxing() + right.count_relaxing(),
            Tree::Relaxing(left, right, _) => 1 + left.count_relaxing() + right.count_relaxing(),
        }
    }

    pub fn count_branchings(&self, tensing: bool) -> (n: usize)
        requires
            count_branchings_spec(*self, tensing) <= usize::MAX,
        ensures
            n == count_branchings_spec(*self, tensing),
    {
        if tensing {
            self.count_tensing()
        } else {
            self.count_relaxing()
        }
    }

    pub fn count_leaves(&self) -> (n: usize)
        requires
            leaves(*self).len() <= usize::MAX,
        ensures
            n == leaves(*self).len(),
        decreases self,
    {
        match self {
            Tree::Leaf(_) => 1,
            Tree::Tensing(left, right, _) => left.count_leaves() + right.count_leaves(),
            Tree::Relaxing(left, right, _) => left.count_leaves() + right.count_leaves(),
        }
    }
}

impl<T: Clone> Tree<T> {
    /// Remove the rightmost leaf and return (a clone of) its value; a lone leaf stays as it is
    /// and gives `None`.
    pub fn pop_last(&mut self) -> (r: Option<T>)
        ensures
            *old(self) is Leaf ==> r is None && *final(self) == *old(self),
            !(*old(self) is Leaf) ==> {
                &&& r matches Some(x) && cloned(leaves(*old(self)).last(), x)
                &&& *final(self) == without_last(*old(self))
                &&& leaves(*final(self)) == leaves(*old(self)).drop_last()
            },
    {
        if self.is_leaf() {
            return None;
        }
        proof {
            lemma_without_last_leaves(*self);
        }
        let val = self.last_leaf_value();
        let mut owned = Tree::Leaf(val.clone());
        std::mem::swap(self, &mut owned);
        *self = Self::without_last_owned(owned);
        Some(val)
    }

    /// Remove the leftmost leaf and return (a clone of) its value; a lone leaf stays as it is
    /// and gives `None`.
    pub fn pop_first(&mut self) -> (r: Option<T>)
        ensures
            *old(self) is Leaf ==> r is None && *final(self) == *old(self),
            !(*old(self) is Leaf) ==> {
                &&& r matches Some(x) && cloned(leaves(*old(self)).first(), x)
                &&& *final(self) == without_first(*old(self))
                &&& leaves(*final(self)) == leaves(*old(self)).drop_first()
            },
    {
        if self.is_leaf() {
            return None;
        }
        proof {
            lemma_without_first_leaves(*self);
        }
        let val = self.first_leaf_value();
        let mut owned = Tree::Leaf(val.clone());
        std::mem::swap(self, &mut owned);
        *self = Self::without_first_owned(owned);
        Some(val)
    }

    fn last_leaf_value(&self) -> (v: T)
        ensures
            cloned(leaves(*self).last(), v),
        decreases self,
    {
        match self {
            Tree::Leaf(v) => v.clone(),
            Tree::Tensing(_, right, _) => {
                proof {
                    lemma_leaves_nonempty(**right);
                }
                right.last_leaf_value()
            },
            Tree::Relaxing(_, right, _) => {
                proof {
                    lemma_leaves_nonempty(**right);
                }
                right.last_leaf_value()
            },
        }
    }

    fn first_leaf_value(&self) -> (v: T)
        ensures
            cloned(leaves(*self).first(), v),
        decreases self,
    {
        match self {
            Tree::Leaf(v) => v.clone(),
            Tree::Tensing(left, _, _) => {
                proof {
                    lemma_leaves_nonempty(**left);
                }
                left.first_leaf_value()
            },
            Tree::Relaxing(left, _, _) => {
                proof {
                    lemma_leaves_nonempty(**left);
                }
                left.first_leaf_value()
            },
        }
    }
}

impl<T> Tree<T> {
    fn without_last_owned(t: Tree<T>) -> (r: Tree<T>)
        ensures
            r == without_last(t),
        decreases t,
    {
        match t {
            Tree::Leaf(v) => Tree::Leaf(v),
            Tree::Tensing(left, right, s) => if right.is_leaf() {
                *left
            } else {
                Tree::Tensing(left, Box::new(Self::without_last_owned(*right)), s)
            },
            Tree::Relaxing(left, right, s) => if right.is_leaf() {
                *left
            } else {
                Tree::Relaxing(left, Box::new(Self::without_last_owned(*right)), s)
            },
        }
    }

    fn without_first_owned(t: Tree<T>) -> (r: Tree<T>)
        ensures
            r == without_first(t),
        decreases t,
    {
        match t {
            Tree::Leaf(v) => Tree::Leaf(v),
            Tree::Tensing(left, right, s) => if left.is_leaf() {
                *right
            } else {
                Tree::Tensing(Box::new(Self::without_first_owned(*left)), right, s)
            },
            Tree::Relaxing(left, right, s) => if left.is_leaf() {
                *right
            } else {
                Tree::Relaxing(Box::new(Self::without_first_owned(*left)), right, s)
            },
        }
    }
}

impl<T> Tree<T> {
    fn is_leaf(&self) -> (b: bool)
        ensures
            b == (*self is Leaf),
    {
        match self {
            Tree::Leaf(_) => true,
            _ => false,
        }
    }
}



/// Every two of the chords `u`, and the root with each of them, have a computable distance.
pub open spec fn distances_defined_among(root: PitchClassSpace, u: Seq<PitchClassSpace>) -> bool {
    &&& forall|x: PitchClassSpace, y: PitchClassSpace|
        u.contains(x) && u.contains(y) ==> #[trigger] chord_dist_defined(x, y)
    &&& forall|x: PitchClassSpace| u.contains(x) ==> #[trigger] chord_dist_defined(root, x)
}

/// Every leaf of the tree holds 0.
pub open spec fn all_leaves_zero(t: Tree<usize>) -> bool {
    forall|k: int| 0 <= k < leaves(t).len() ==> #[trigger] leaves(t)[k] == 0usize
}

/// The branching that joins two subtrees: tensing when the right chord lies farther from the
/// root, relaxing when it lies nearer, and a strong (tensing) prolongation when equally far.
pub open spec fn join_spec<T>(
    root: PitchClassSpace,
    left: Tree<T>,
    left_chord: PitchClassSpace,
    right: Tree<T>,
    right_chord: PitchClassSpace,
) -> Tree<T> {
    let left_dist = chord_dist(root, left_chord);
    let right_dist = chord_dist(root, right_chord);
    if right_dist > left_dist {
        Tree::Tensing(Box::new(left), Box::new(right), Strength::Progression)
    } else if right_dist < left_dist {
        Tree::Relaxing(Box::new(left), Box::new(right), Strength::Progression)
    } else {
        Tree::Tensing(Box::new(left), Box::new(right), Strength::Strong)
    }
}

/// A branching moves toward tension exactly when its right chord lies farther from the root
/// than its left chord: it is tensing when the right chord is at least as far, a progression
/// unless both are equally far, and relaxing when the right chord is nearer. The two subtrees
/// stay as they were, left and right.
pub proof fn lemma_join_tension<T>(
    root: PitchClassSpace,
    left: Tree<T>,
    left_chord: PitchClassSpace,
    right: Tree<T>,
    right_chord: PitchClassSpace,
)
    ensures
        join_spec(root, left, left_chord, right, right_chord) is Tensing <==> chord_dist(root, right_chord)
            >= chord_dist(root, left_chord),
        join_spec(root, left, left_chord, right, right_chord) is Relaxing <==> chord_dist(root, right_chord)
            < chord_dist(root, left_chord),
        join_spec(root, left, left_chord, right, right_chord) matches Tree::Tensing(l, r, st) ==> *l == left
            && *r == right && (st == Strength::Strong <==> chord_dist(root, right_chord) == chord_dist(
            root,
            left_chord,
        )),
        join_spec(root, left, left_chord, right, right_chord) matches Tree::Relaxing(l, r, st) ==> *l == left
            && *r == right && st == Strength::Progression,
{
}

/// The tree that relates the chords `inter` to the chords `left` and `right` around them.
pub open spec fn inter_tree(
    tensing: bool,
    root: PitchClassSpace,
    left: PitchClassSpace,
    inter: Seq<PitchClassSpace>,
    right: PitchClassSpace,
) -> Tree<usize>
    decreases inter.len(), inter.len() + 2,
{
    if inter.len() == 0 {
        join_spec(root, Tree::Leaf(0usize), left, Tree::Leaf(0usize), right)
    } else {
        pivot_search(tensing, root, left, inter, right, inter.len() as int).1
    }
}

/// The candidate tree with `inter[i]` as the pivot.
pub open spec fn pivot_tree(
    tensing: bool,
    root: PitchClassSpace,
    left: PitchClassSpace,
    inter: Seq<PitchClassSpace>,
    right: PitchClassSpace,
    i: int,
) -> Tree<usize>
    decreases inter.len(), 0int,
{
    if 0 <= i < inter.len() {
        let n = inter.len() as int;
        let pivot = inter[i];
        if chord_dist(left, pivot) < chord_dist(right, pivot) {
            let left_tree = inter_tree(tensing, root, left, inter.subrange(0, i), pivot);
            let right_tree = if i == n - 1 {
                Tree::Leaf(0usize)
            } else {
                inter_tree(tensing, root, inter[i + 1], inter.subrange(i + 2, n), right)
            };
            join_spec(root, left_tree, left, right_tree, right)
        } else {
            let left_tree = if i == 0 {
                Tree::Leaf(0usize)
            } else {
                inter_tree(tensing, root, left, inter.subrange(0, i - 1), inter[i - 1])
            };
            let right_tree = inter_tree(tensing, root, pivot, inter.subrange(i + 1, n), right);
            join_spec(root, left_tree, left, right_tree, right)
        }
    } else {
        Tree::Leaf(0usize)
    }
}

/// The best candidate among the pivots `0 .. k`: the first with the fewest branchings of the
/// requested kind, as (that count, that tree); `(usize::MAX, Leaf(0))` before any pivot.
pub open spec fn pivot_search(
    tensing: bool,
    root: PitchClassSpace,
    left: PitchClassSpace,
    inter: Seq<PitchClassSpace>,
    right: PitchClassSpace,
    k: int,
) -> (int, Tree<usize>)
    decreases inter.len(), k + 1,
{
    if k <= 0 || k > inter.len() {
        (usize::MAX as int, Tree::Leaf(0usize))
    } else {
        let prev = pivot_search(tensing, root, left, inter, right, k - 1);
        let t = pivot_tree(tensing, root, left, inter, right, k - 1);
        let count = count_branchings_spec(t, tensing) as int;
        if count < prev.0 {
            (count, t)
        } else {
            prev
        }
    }
}

/// A tree has one more leaf than it has branchings, tensing and relaxing together, and
/// counting the branchings of one kind counts the tensing or the relaxing ones.
pub proof fn lemma_branchings_leaves<T>(t: Tree<T>)
    ensures
        count_tensing_spec(t) + count_relaxing_spec(t) + 1 == leaves(t).len(),
        count_branchings_spec(t, true) == count_tensing_spec(t),
        count_branchings_spec(t, false) == count_relaxing_spec(t),
    decreases t,
{
    match t {
        Tree::Leaf(_) => {},
        Tree::Tensing(l, r, _) => {
            lemma_branchings_leaves(*l);
            lemma_branchings_leaves(*r);
        },
        Tree::Relaxing(l, r, _) => {
            lemma_branchings_leaves(*l);
            lemma_branchings_leaves(*r);
        },
    }
}

proof fn lemma_join_leaves<T>(
    root: PitchClassSpace,
    left: Tree<T>,
    left_chord: PitchClassSpace,
    right: Tree<T>,
    right_chord: PitchClassSpace,
)
    ensures
        leaves(join_spec(root, left, left_chord, right, right_chord)) == leaves(left) + leaves(
            right,
        ),
{
}

proof fn lemma_concat_zero(a: Tree<usize>, b: Tree<usize>)
    requires
        all_leaves_zero(a),
        all_leaves_zero(b),
    ensures
        forall|k: int|
            0 <= k < (leaves(a) + leaves(b)).len() ==> #[trigger] (leaves(a) + leaves(b))[k]
                == 0usize,
{
    assert forall|k: int| 0 <= k < (leaves(a) + leaves(b)).len() implies #[trigger] (leaves(a)
        + leaves(b))[k] == 0usize by {
        if k < leaves(a).len() {
            assert(leaves(a)[k] == 0usize);
        } else {
            assert(leaves(b)[k - leaves(a).len()] == 0usize);
        }
    }
}

/// Law: the tree between two chords has one leaf for each of them and for each chord between
/// them, and every leaf holds 0.
pub proof fn lemma_inter_tree_leaves(
    tensing: bool,
    root: PitchClassSpace,
    left: PitchClassSpace,
    inter: Seq<PitchClassSpace>,
    right: PitchClassSpace,
)
    requires
        inter.len() + 2 < usize::MAX,
    ensures
        leaves(inter_tree(tensing, root, left, inter, right)).len() == inter.len() + 2,
        all_leaves_zero(inter_tree(tensing, root, left, inter, right)),
    decreases inter.len(), 2int, 0int,
{
    if inter.len() == 0 {
        let t = inter_tree(tensing, root, left, inter, right);
        lemma_join_leaves(root, Tree::Leaf(0usize), left, Tree::Leaf(0usize), right);
        assert(leaves(t) =~= seq![0usize, 0usize]);
    } else {
        lemma_pivot_search_leaves(tensing, root, left, inter, right, inter.len() as int);
    }
}

proof fn lemma_pivot_tree_leaves(
    tensing: bool,
    root: PitchClassSpace,
    left: PitchClassSpace,
    inter: Seq<PitchClassSpace>,
    right: PitchClassSpace,
    i: int,
)
    requires
        0 <= i < inter.len(),
        inter.len() + 2 < usize::MAX,
    ensures
        leaves(pivot_tree(tensing, root, left, inter, right, i)).len() == inter.len() + 2,
        all_leaves_zero(pivot_tree(tensing, root, left, inter, right, i)),
    decreases inter.len(), 0int, 0int,
{
    let n = inter.len() as int;
    let pivot = inter[i];
    let leaf = Tree::Leaf(0usize);
    assert(leaves(leaf) =~= seq![0usize]);
    if chord_dist(left, pivot) < chord_dist(right, pivot) {
        let left_tree = inter_tree(tensing, root, left, inter.subrange(0, i), pivot);
        lemma_inter_tree_leaves(tensing, root, left, inter.subrange(0, i), pivot);
        let right_tree = if i == n - 1 {
            leaf
        } else {
            lemma_inter_tree_leaves(tensing, root, inter[i + 1], inter.subrange(i + 2, n), right);
            inter_tree(tensing, root, inter[i + 1], inter.subrange(i + 2, n), right)
        };
        lemma_join_leaves(root, left_tree, left, right_tree, right);
        lemma_concat_zero(left_tree, right_tree);
    } else {
        let left_tree = if i == 0 {
            leaf
        } else {
            lemma_inter_tree_leaves(tensing, root, left, inter.subrange(0, i - 1), inter[i - 1]);
            inter_tree(tensing, root, left, inter.subrange(0, i - 1), inter[i - 1])
        };
        let right_tree = inter_tree(tensing, root, pivot, inter.subrange(i + 1, n), right);
        lemma_inter_tree_leaves(tensing, root, pivot, inter.subrange(i + 1, n), right);
        lemma_join_leaves(root, left_tree, left, right_tree, right);
        lemma_concat_zero(left_tree, right_tree);
    }
}

proof fn lemma_pivot_search_leaves(
    tensing: bool,
    root: PitchClassSpace,
    left: PitchClassSpace,
    inter: Seq<PitchClassSpace>,
    right: PitchClassSpace,
    k: int,
)
    requires
        1 <= k <= inter.len(),
        inter.len() + 2 < usize::MAX,
    ensures
        leaves(pivot_search(tensing, root, left, inter, right, k).1).len() == inter.len() + 2,
        all_leaves_zero(pivot_search(tensing, root, left, inter, right, k).1),
        0 <= pivot_search(tensing, root, left, inter, right, k).0 <= inter.len() + 1,
    decreases inter.len(), 1int, k,
{
    let t = pivot_tree(tensing, root, left, inter, right, k - 1);
    lemma_pivot_tree_leaves(tensing, root, left, inter, right, k - 1);
    lemma_branchings_leaves(t);
    if k > 1 {
        lemma_pivot_search_leaves(tensing, root, left, inter, right, k - 1);
    } else {
        assert(pivot_search(tensing, root, left, inter, right, 0).0 == usize::MAX as int);
    }
}


/// Join two subtrees under the branching that `join_spec` describes.
fn join_with_tensing<T>(
    root: &PitchClassSpace,
    left: (Tree<T>, &PitchClassSpace),
    right: (Tree<T>, &PitchClassSpace),
) -> (t: Tree<T>)
    requires
        chord_dist_defined(*root, *left.1),
        chord_dist_defined(*root, *right.1),
    ensures
        t == join_spec(*root, left.0, *left.1, right.0, *right.1),
{
    let left_dist = root.total_distance(left.1);
    let right_dist = root.total_distance(right.1);
    if right_dist > left_dist {
        // tensing
        Tree::Tensing(Box::new(left.0), Box::new(right.0), Strength::Progression)
    } else if right_dist < left_dist {
        // relaxing
        Tree::Relaxing(Box::new(left.0), Box::new(right.0), Strength::Progression)
    } else {
        // strong prolongation
        Tree::Tensing(Box::new(left.0), Box::new(right.0), Strength::Strong)
    }
}

/// The chords `v[lo..hi]` as a vector of their own.
fn copy_range(v: &Vec<PitchClassSpace>, lo: usize, hi: usize) -> (r: Vec<PitchClassSpace>)
    requires
        lo <= hi <= v@.len(),
    ensures
        r@ == v@.subrange(lo as int, hi as int),
{
    let mut r: Vec<PitchClassSpace> = Vec::new();
    let mut k: usize = lo;
    while k < hi
        invariant
            lo <= k <= hi <= v@.len(),
            r@ == v@.subrange(lo as int, k as int),
        decreases hi - k,
    {
        r.push(v[k]);
        k = k + 1;
        assert(r@ =~= v@.subrange(lo as int, k as int));
    }
    r
}

fn inter_tree_within(
    tensing: bool,
    root: &PitchClassSpace,
    left_chord: &PitchClassSpace,
    inter_chords: &Vec<PitchClassSpace>,
    right_chord: &PitchClassSpace,
    Ghost(u): Ghost<Seq<PitchClassSpace>>,
) -> (t: Tree<usize>)
    requires
        distances_defined_among(*root, u),
        u.contains(*left_chord),
        u.contains(*right_chord),
        forall|k: int| 0 <= k < inter_chords@.len() ==> u.contains(#[trigger] inter_chords@[k]),
        inter_chords@.len() + 2 < usize::MAX,
    ensures
        t == inter_tree(tensing, *root, *left_chord, inter_chords@, *right_chord),
    decreases inter_chords@.len(),
{
    if inter_chords.len() == 0 {
        return join_with_tensing(root, (Tree::Leaf(0), left_chord), (Tree::Leaf(0), right_chord));
    }
    let ghost inter = inter_chords@;
    let n = inter_chords.len();
    // try every pivot and keep the first that gives the fewest branchings of the wanted kind
    let mut best_count: usize = usize::MAX;
    let mut best_tree: Tree<usize> = Tree::Leaf(0);
    let mut i: usize = 0;
    while i < n
        invariant
            inter == inter_chords@,
            n == inter.len(),
            n >= 1,
            i <= n,
            distances_defined_among(*root, u),
            u.contains(*left_chord),
            u.contains(*right_chord),
            forall|k: int| 0 <= k < inter.len() ==> u.contains(#[trigger] inter[k]),
            inter.len() + 2 < usize::MAX,
            (best_count as int, best_tree) == pivot_search(
                tensing,
                *root,
                *left_chord,
                inter,
                *right_chord,
                i as int,
            ),
        decreases n - i,
    {
        proof {
            lemma_pivot_tree_leaves(tensing, *root, *left_chord, inter, *right_chord, i as int);
            lemma_branchings_leaves(
                pivot_tree(tensing, *root, *left_chord, inter, *right_chord, i as int),
            );
        }
        let is_first = i == 0;
        let is_last = i == n - 1;
        let pivot = &inter_chords[i];
        assert(u.contains(inter[i as int]));
        assert(chord_dist_defined(*left_chord, *pivot));
        assert(chord_dist_defined(*right_chord, *pivot));
        assert(chord_dist_defined(*root, *left_chord));
        assert(chord_dist_defined(*root, *right_chord));
        let left_dist = left_chord.total_distance(pivot);
        let right_dist = right_chord.total_distance(pivot);
        let tree = if left_dist < right_dist {
            let before = copy_range(inter_chords, 0, i);
            let left_tree = inter_tree_within(
                tensing,
                root,
                left_chord,
                &before,
                pivot,
                Ghost(u),
            );
            let right_tree = if is_last {
                Tree::Leaf(0)
            } else {
                let after = copy_range(inter_chords, i + 2, n);
                assert(u.contains(inter[i + 1]));
                inter_tree_within(tensing, root, &inter_chords[i + 1], &after, right_chord, Ghost(u))
            };
            join_with_tensing(root, (left_tree, left_chord), (right_tree, right_chord))
        } else {
            let left_tree = if is_first {
                Tree::Leaf(0)
            } else {
                let before = copy_range(inter_chords, 0, i - 1);
                assert(u.contains(inter[i - 1]));
                inter_tree_within(
                    tensing,
                    root,
                    left_chord,
                    &before,
                    &inter_chords[i - 1],
                    Ghost(u),
                )
            };
            let after = copy_range(inter_chords, i + 1, n);
            let right_tree = inter_tree_within(tensing, root, pivot, &after, right_chord, Ghost(u));
            join_with_tensing(root, (left_tree, left_chord), (right_tree, right_chord))
        };
        let count = tree.count_branchings(tensing);
        if count < best_count {
            best_count = count;
            best_tree = tree;
        }
        i = i + 1;
    }
    best_tree
}

/// Take the chords between two sequence chords and build a prolongational subtree that relates
/// them to the left and right sequence chords. The tree includes the left and right chords.
pub fn build_inter_sequence_prolongational_tree(
    tensing: bool,
    root: &PitchClassSpace,
    left_chord: &PitchClassSpace,
    inter_chords: &Vec<PitchClassSpace>,
    right_chord: &PitchClassSpace,
) -> (t: Tree<usize>)
    requires
        distances_defined_among(*root, seq![*left_chord] + inter_chords@ + seq![*right_chord]),
        inter_chords@.len() + 2 < usize::MAX,
    ensures
        t == inter_tree(tensing, *root, *left_chord, inter_chords@, *right_chord),
        leaves(t).len() == inter_chords@.len() + 2,
        all_leaves_zero(t),
{
    let ghost u = seq![*left_chord] + inter_chords@ + seq![*right_chord];
    assert(u[0] == *left_chord);
    assert(u[u.len() - 1] == *right_chord);
    assert forall|k: int| 0 <= k < inter_chords@.len() implies u.contains(
        #[trigger] inter_chords@[k],
    ) by {
        assert(u[k + 1] == inter_chords@[k]);
    }
    proof {
        lemma_inter_tree_leaves(tensing, *root, *left_chord, inter_chords@, *right_chord);
    }
    inter_tree_within(tensing, root, left_chord, inter_chords, right_chord, Ghost(u))
}


/// The tree after joining the subtrees for the first `k` steps of the path `p` through the
/// chords `c`: each later subtree loses its leftmost leaf, which the tree so far already holds.
pub open spec fn segments_tree(
    tensing: bool,
    root: PitchClassSpace,
    c: Seq<PitchClassSpace>,
    p: Seq<usize>,
    k: int,
) -> Option<Tree<usize>>
    decreases k,
{
    if k <= 0 {
        None
    } else {
        let a = p[k - 1] as int;
        let b = p[k] as int;
        let sub = inter_tree(tensing, root, c[a], c.subrange(a + 1, b), c[b]);
        match segments_tree(tensing, root, c, p, k - 1) {
            None => Some(sub),
            Some(e) => Some(join_spec(root, e, c[a], without_first(sub), c[b])),
        }
    }
}

/// The full prolongational tree of the chords `c`.
pub open spec fn full_tree_spec(c: Seq<PitchClassSpace>, root: PitchClassSpace, tensing: bool) -> Option<
    Tree<usize>,
> {
    if c.len() == 0 {
        None
    } else if c.len() == 1 {
        Some(Tree::Leaf(0usize))
    } else {
        let p = min_dist_path_spec(c);
        segments_tree(tensing, root, c, p, p.len() - 1)
    }
}

proof fn lemma_defined_subset(root: PitchClassSpace, u: Seq<PitchClassSpace>, v: Seq<PitchClassSpace>)
    requires
        distances_defined_among(root, u),
        forall|x: PitchClassSpace| v.contains(x) ==> u.contains(x),
    ensures
        distances_defined_among(root, v),
{
}

/// The chords `c[a]`, the chords strictly between `a` and `b`, and `c[b]` all come from `c`.
proof fn lemma_segment_within(c: Seq<PitchClassSpace>, a: int, b: int)
    requires
        0 <= a < b < c.len(),
    ensures
        forall|x: PitchClassSpace|
            (seq![c[a]] + c.subrange(a + 1, b) + seq![c[b]]).contains(x) ==> c.contains(x),
{
    let v = seq![c[a]] + c.subrange(a + 1, b) + seq![c[b]];
    assert forall|x: PitchClassSpace| v.contains(x) implies c.contains(x) by {
        let k = choose|k: int| 0 <= k < v.len() && v[k] == x;
        if k == 0 {
            assert(c[a] == x);
        } else if k == v.len() - 1 {
            assert(c[b] == x);
        } else {
            assert(v[k] == c[a + k]);
        }
    }
}

/// Build a full prolongational tree for the entire chord sequence, with the tonal center as
/// root: the chords of the least-distance path form the skeleton, and a subtree relates the
/// chords between each two of them.
/// The progression must hold fewer than `usize::MAX / 64` chords, a machine limit: a distance
/// is at most 64, so every sum of distances along the progression then fits in a `usize`.
pub fn build_full_prolongational_tree(
    chords: &Vec<PitchClassSpace>,
    root: &PitchClassSpace,
    tensing: bool,
) -> (r: Option<Tree<usize>>)
    requires
        distances_defined_among(*root, chords@),
        chords@.len() * 64 < usize::MAX,
    ensures
        r == full_tree_spec(chords@, *root, tensing),
        chords@.len() == 0 ==> r is None,
        chords@.len() >= 1 ==> (r matches Some(t) && leaves(t).len() == chords@.len()
            && all_leaves_zero(t)),
{
    let ghost c = chords@;
    let n = chords.len();
    if n == 0 {
        return None;
    }
    if n == 1 {
        let t = Tree::Leaf(0);
        assert(leaves(t) =~= seq![0usize]);
        return Some(t);
    }
    assert(forward_distances_defined(c)) by {
        assert forall|i: int, j: int| 0 <= i < j < c.len() implies #[trigger] chord_dist_defined(
            c[i],
            c[j],
        ) by {
            assert(c.contains(c[i]));
            assert(c.contains(c[j]));
        }
    }
    let path = get_min_dist_path(chords);
    let ghost p = path@;
    let mut tree: Option<Tree<usize>> = None;
    let mut i: usize = 0;
    while i < path.len() - 1
        invariant
            c == chords@,
            n == c.len(),
            n >= 2,
            n * 64 < usize::MAX,
            distances_defined_among(*root, c),
            p == path@,
            p == min_dist_path_spec(c),
            is_path_from(p, 0, n as int),
            forall|k: int| 0 <= k < p.len() ==> #[trigger] p[k] < n,
            i <= p.len() - 1,
            tree == segments_tree(tensing, *root, c, p, i as int),
            i == 0 ==> tree is None,
            i >= 1 ==> (tree matches Some(t) && leaves(t).len() == p[i as int] + 1
                && all_leaves_zero(t)),
        decreases p.len() - 1 - i,
    {
        let left_index = path[i];
        let right_index = path[i + 1];
        assert(p[i as int] < p[i + 1]);
        assert(p[i + 1] < n);
        let inter = copy_range(chords, left_index + 1, right_index);
        proof {
            lemma_segment_within(c, left_index as int, right_index as int);
            lemma_defined_subset(
                *root,
                c,
                seq![c[left_index as int]] + inter@ + seq![c[right_index as int]],
            );
        }
        let mut subtree = build_inter_sequence_prolongational_tree(
            tensing,
            root,
            &chords[left_index],
            &inter,
            &chords[right_index],
        );
        let ghost sub = subtree;
        tree = match tree {
            Some(existing) => {
                // remove the leftmost leaf to avoid duplication
                proof {
                    assert(!(subtree is Leaf));
                    lemma_without_first_leaves(subtree);
                }
                subtree.pop_first();
                assert(all_leaves_zero(subtree)) by {
                    assert forall|k: int| 0 <= k < leaves(subtree).len() implies #[trigger] leaves(
                        subtree,
                    )[k] == 0usize by {
                        assert(leaves(subtree)[k] == leaves(sub)[k + 1]);
                    }
                }
                assert(c.contains(c[left_index as int]));
                assert(c.contains(c[right_index as int]));
                let joined = join_with_tensing(
                    root,
                    (existing, &chords[left_index]),
                    (subtree, &chords[right_index]),
                );
                proof {
                    lemma_join_leaves(
                        *root,
                        existing,
                        c[left_index as int],
                        subtree,
                        c[right_index as int],
                    );
                    lemma_concat_zero(existing, subtree);
                }
                Some(joined)
            },
            None => {
                assert(p[0] == 0);
                Some(subtree)
            },
        };
        i = i + 1;
    }
    tree
}


/// The tree held in `t`, or a single leaf 0 when there is none.
pub open spec fn tree_or_leaf(t: Option<Tree<usize>>) -> Tree<usize> {
    match t {
        Some(x) => x,
        None => Tree::Leaf(0usize),
    }
}

/// The score of splitting the chords at `split`: the tensing branchings of the tree before it
/// plus the relaxing branchings of the tree from it on.
pub open spec fn split_score(c: Seq<PitchClassSpace>, root: PitchClassSpace, split: int) -> int {
    let left = tree_or_leaf(full_tree_spec(c.subrange(0, split), root, true));
    let right = tree_or_leaf(full_tree_spec(c.subrange(split, c.len() as int), root, false));
    count_tensing_spec(left) + count_relaxing_spec(right) as int
}

/// The best split among `2 .. k`: the first with the highest score, as (score, tensing tree,
/// relaxing tree); `(0, Leaf(0), Leaf(0))` when none scores above 0.
pub open spec fn split_search(c: Seq<PitchClassSpace>, root: PitchClassSpace, k: int) -> (
    int,
    Tree<usize>,
    Tree<usize>,
)
    decreases k,
{
    if k <= 2 || k > c.len() - 1 {
        (0, Tree::Leaf(0usize), Tree::Leaf(0usize))
    } else {
        let prev = split_search(c, root, k - 1);
        let total = split_score(c, root, k - 1);
        if total > prev.0 {
            (
                total,
                tree_or_leaf(full_tree_spec(c.subrange(0, k - 1), root, true)),
                tree_or_leaf(full_tree_spec(c.subrange(k - 1, c.len() as int), root, false)),
            )
        } else {
            prev
        }
    }
}

/// The search up to `k` scores at least 0 and at least every split it looked at.
proof fn lemma_split_search_max(c: Seq<PitchClassSpace>, root: PitchClassSpace, k: int)
    ensures
        split_search(c, root, k).0 >= 0,
        k <= c.len() - 1 ==> forall|s: int|
            2 <= s < k ==> split_search(c, root, k).0 >= #[trigger] split_score(c, root, s),
    decreases k,
{
    if 2 < k <= c.len() - 1 {
        lemma_split_search_max(c, root, k - 1);
    }
}

/// The best split scores at least as much as every split of the chords into a tensing part
/// of at least two chords and a relaxing part of at least two chords, and never below 0.
pub proof fn lemma_best_split_is_best(c: Seq<PitchClassSpace>, root: PitchClassSpace)
    ensures
        best_split_spec(c, root).0 >= 0,
        forall|s: int|
            2 <= s <= c.len() - 2 ==> best_split_spec(c, root).0 >= #[trigger] split_score(c, root, s),
{
    if c.len() >= 4 {
        lemma_split_search_max(c, root, c.len() - 1);
    }
}

/// What `find_best_tension_relaxation_split_and_score` returns.
pub open spec fn best_split_spec(c: Seq<PitchClassSpace>, root: PitchClassSpace) -> (
    int,
    Tree<usize>,
    Tree<usize>,
) {
    if c.len() < 4 {
        (0, Tree::Leaf(0usize), Tree::Leaf(3usize))
    } else {
        split_search(c, root, c.len() - 1)
    }
}

/// Split the chords into a tensing part and a relaxing part so that the tensing branchings of
/// the first part plus the relaxing branchings of the second part are as many as possible.
/// The progression must hold fewer than `usize::MAX / 64` chords, a machine limit: a distance
/// is at most 64, so every sum of distances along the progression then fits in a `usize`.
pub fn find_best_tension_relaxation_split_and_score(
    chords: &Vec<PitchClassSpace>,
    root: &PitchClassSpace,
) -> (r: (usize, Tree<usize>, Tree<usize>))
    requires
        distances_defined_among(*root, chords@),
        chords@.len() * 64 < usize::MAX,
    ensures
        r.0 == best_split_spec(chords@, *root).0,
        r.1 == best_split_spec(chords@, *root).1,
        r.2 == best_split_spec(chords@, *root).2,
        r.0 > 0 ==> leaves(r.1).len() + leaves(r.2).len() == chords@.len(),
        r.0 == 0 ==> leaves(r.1).len() + leaves(r.2).len() == 2,
{
    let ghost c = chords@;
    let n = chords.len();
    if n < 4 {
        return (0, Tree::Leaf(0), Tree::Leaf(3));
    }
    let mut best_score: usize = 0;
    let mut best_sol: (Tree<usize>, Tree<usize>) = (Tree::Leaf(0), Tree::Leaf(0));
    let mut split: usize = 2;
    while split < n - 1
        invariant
            c == chords@,
            n == c.len(),
            n >= 4,
            n * 64 < usize::MAX,
            distances_defined_among(*root, c),
            2 <= split <= n - 1,
            (best_score as int, best_sol.0, best_sol.1) == split_search(c, *root, split as int),
            best_score <= n,
            best_score > 0 ==> leaves(best_sol.0).len() + leaves(best_sol.1).len() == n,
            best_score == 0 ==> best_sol == (Tree::<usize>::Leaf(0usize), Tree::<usize>::Leaf(0usize)),
        decreases n - 1 - split,
    {
        // `split` is where the relaxing begins
        let left_chords = copy_range(chords, 0, split);
        let right_chords = copy_range(chords, split, n);
        proof {
            lemma_defined_subset(*root, c, left_chords@);
            lemma_defined_subset(*root, c, right_chords@);
        }
        let left_tree = build_full_prolongational_tree(&left_chords, root, true);
        let right_tree = build_full_prolongational_tree(&right_chords, root, false);
        let left_tree = match left_tree {
            Some(t) => t,
            None => Tree::Leaf(0),
        };
        let right_tree = match right_tree {
            Some(t) => t,
            None => Tree::Leaf(0),
        };
        proof {
            lemma_branchings_leaves(left_tree);
            lemma_branchings_leaves(right_tree);
        }
        let total = left_tree.count_tensing() + right_tree.count_relaxing();
        if total > best_score {
            best_score = total;
            best_sol = (left_tree, right_tree);
        }
        split = split + 1;
    }
    (best_score, best_sol.0, best_sol.1)
}

/// The value that stands for "no candidate yet" in the search for the cheapest next chord.
pub open spec fn no_candidate() -> int {
    usize::MAX as int
}

/// The cost of going from chord `i` to chord `j` and then on to the last chord as cheaply as
/// possible.
pub open spec fn step_cost(c: Seq<PitchClassSpace>, i: int, j: int) -> int
    decreases c.len() - i, j,
{
    if 0 <= i < j < c.len() {
        chord_dist(c[i], c[j]) + min_dist_to_end(c, j)
    } else {
        0
    }
}

/// The cheapest next chord after `i` among the candidates `i + 1 .. k`, scanning upwards and
/// keeping the first of equally cheap ones: (its cost, its index).
pub open spec fn scan_best(c: Seq<PitchClassSpace>, i: int, k: int) -> (int, int)
    decreases c.len() - i, k,
{
    if k <= i + 1 || k > c.len() || i < 0 {
        (no_candidate(), 0)
    } else {
        let prev = scan_best(c, i, k - 1);
        let t = step_cost(c, i, k - 1);
        if t < prev.0 {
            (t, k - 1)
        } else {
            prev
        }
    }
}

/// The least total distance of a path of chords from chord `i` to the last chord.
pub open spec fn min_dist_to_end(c: Seq<PitchClassSpace>, i: int) -> int
    decreases c.len() - i, c.len() + 2,
{
    if i < 0 || i >= c.len() - 1 {
        0
    } else {
        scan_best(c, i, c.len() as int).0
    }
}

/// The chosen next chord after `i`.
pub open spec fn best_next(c: Seq<PitchClassSpace>, i: int) -> int {
    scan_best(c, i, c.len() as int).1
}

/// The chosen path from chord `i` to the last chord.
pub open spec fn path_from(c: Seq<PitchClassSpace>, i: int) -> Seq<usize>
    decreases c.len() - i,
{
    if i < 0 || i >= c.len() - 1 {
        seq![i as usize]
    } else if best_next(c, i) <= i || best_next(c, i) >= c.len() {
        seq![i as usize]
    } else {
        seq![i as usize] + path_from(c, best_next(c, i))
    }
}

/// The total distance along a path of chord indices.
pub open spec fn path_cost(c: Seq<PitchClassSpace>, p: Seq<usize>) -> int
    decreases p.len(),
{
    if p.len() <= 1 {
        0
    } else {
        chord_dist(c[p[0] as int], c[p[1] as int]) + path_cost(c, p.drop_first())
    }
}

/// A path from chord `i` to the last of `n` chords, through strictly increasing indices.
pub open spec fn is_path_from(p: Seq<usize>, i: int, n: int) -> bool {
    &&& p.len() >= 1
    &&& p[0] == i
    &&& p[p.len() - 1] == n - 1
    &&& forall|a: int, b: int| 0 <= a < b < p.len() ==> p[a] < p[b]
}

/// Every distance between a chord and a later one can be computed.
pub open spec fn forward_distances_defined(c: Seq<PitchClassSpace>) -> bool {
    forall|i: int, j: int| 0 <= i < j < c.len() ==> #[trigger] chord_dist_defined(c[i], c[j])
}

/// The path that `get_min_dist_path` returns.
pub open spec fn min_dist_path_spec(c: Seq<PitchClassSpace>) -> Seq<usize> {
    if c.len() <= 2 {
        Seq::new(c.len(), |k: int| k as usize)
    } else {
        path_from(c, 0)
    }
}

proof fn lemma_scan_best(c: Seq<PitchClassSpace>, i: int, k: int)
    requires
        0 <= i < c.len(),
        i + 1 <= k <= c.len(),
        c.len() * 64 < usize::MAX,
        forall|j: int| i < j < c.len() ==> 0 <= #[trigger] step_cost(c, i, j) <= 64 * (c.len() - 1 - i),
    ensures
        k > i + 1 ==> i < scan_best(c, i, k).1 < k && scan_best(c, i, k).0 == step_cost(
            c,
            i,
            scan_best(c, i, k).1,
        ),
        forall|j: int| i < j < k ==> scan_best(c, i, k).0 <= #[trigger] step_cost(c, i, j),
        k == i + 1 ==> scan_best(c, i, k).0 == no_candidate(),
    decreases k,
{
    if k > i + 1 {
        lemma_scan_best(c, i, k - 1);
        let prev = scan_best(c, i, k - 1);
        let t = step_cost(c, i, k - 1);
        assert(0 <= t <= 64 * (c.len() - 1 - i));
        if k - 1 == i + 1 {
            assert(prev.0 == no_candidate());
            assert(t < prev.0);
        }
        assert(scan_best(c, i, k) == if t < prev.0 {
            (t, k - 1)
        } else {
            prev
        });
    }
}

/// The least distance to the end is between 0 and 64 per remaining step, and it is attained by
/// the chosen next chord.
proof fn lemma_min_dist(c: Seq<PitchClassSpace>, i: int)
    requires
        0 <= i < c.len(),
        forward_distances_defined(c),
        c.len() * 64 < usize::MAX,
    ensures
        0 <= min_dist_to_end(c, i) <= 64 * (c.len() - 1 - i),
        i < c.len() - 1 ==> {
            &&& i < best_next(c, i) < c.len()
            &&& min_dist_to_end(c, i) == step_cost(c, i, best_next(c, i))
            &&& forall|j: int| i < j < c.len() ==> min_dist_to_end(c, i) <= #[trigger] step_cost(c, i, j)
        },
    decreases c.len() - i,
{
    if i < c.len() - 1 {
        assert forall|j: int| i < j < c.len() implies 0 <= #[trigger] step_cost(c, i, j) <= 64 * (
        c.len() - 1 - i) by {
            lemma_min_dist(c, j);
            assert(chord_dist_defined(c[i], c[j]));
            lemma_total_distance_bound(c[i].highest_levels@, c[j].highest_levels@);
        }
        lemma_scan_best(c, i, c.len() as int);
    }
}

/// The chosen path goes from `i` to the last chord and costs the least distance to the end.
proof fn lemma_path_from(c: Seq<PitchClassSpace>, i: int)
    requires
        0 <= i < c.len(),
        forward_distances_defined(c),
        c.len() * 64 < usize::MAX,
    ensures
        is_path_from(path_from(c, i), i, c.len() as int),
        path_cost(c, path_from(c, i)) == min_dist_to_end(c, i),
        forall|k: int| 0 <= k < path_from(c, i).len() ==> #[trigger] path_from(c, i)[k] < c.len(),
    decreases c.len() - i,
{
    lemma_min_dist(c, i);
    if i < c.len() - 1 {
        let j = best_next(c, i);
        lemma_path_from(c, j);
        let p = path_from(c, i);
        let q = path_from(c, j);
        assert(p == seq![i as usize] + q);
        assert(p.drop_first() =~= q);
        assert forall|a: int, b: int| 0 <= a < b < p.len() implies p[a] < p[b] by {
            if a > 0 {
                assert(p[a] == q[a - 1]);
                assert(p[b] == q[b - 1]);
            } else {
                assert(p[b] == q[b - 1]);
                if b > 1 {
                    assert(q[0] < q[b - 1]);
                }
            }
        }
        assert forall|k: int| 0 <= k < p.len() implies #[trigger] p[k] < c.len() by {
            if k > 0 {
                assert(p[k] == q[k - 1]);
            }
        }
    }
}

/// Optimality: no path from `i` to the last chord costs less than the least distance to the
/// end.
proof fn lemma_path_optimal(c: Seq<PitchClassSpace>, p: Seq<usize>, i: int)
    requires
        0 <= i < c.len(),
        forward_distances_defined(c),
        c.len() * 64 < usize::MAX,
        is_path_from(p, i, c.len() as int),
    ensures
        path_cost(c, p) >= min_dist_to_end(c, i),
    decreases p.len(),
{
    lemma_min_dist(c, i);
    if p.len() > 1 {
        let q = p.drop_first();
        let j = p[1] as int;
        assert(p[0] < p[1]);
        assert(p[1] <= p[p.len() - 1]) by {
            if p.len() > 2 {
                assert(p[1] < p[p.len() - 1]);
            }
        }
        assert(is_path_from(q, j, c.len() as int)) by {
            assert forall|a: int, b: int| 0 <= a < b < q.len() implies q[a] < q[b] by {
                assert(q[a] == p[a + 1]);
                assert(q[b] == p[b + 1]);
            }
        }
        lemma_path_optimal(c, q, j);
        assert(step_cost(c, i, j) == chord_dist(c[i], c[j]) + min_dist_to_end(c, j));
    } else {
        assert(i == c.len() - 1);
    }
}

/// Law: the path that `get_min_dist_path` chooses starts at the first chord, ends at the last,
/// visits chords in order, and no other such path has a smaller total distance.
pub proof fn lemma_min_dist_path_optimal(c: Seq<PitchClassSpace>, p: Seq<usize>)
    requires
        c.len() >= 1,
        c.len() > 2 ==> forward_distances_defined(c),
        c.len() * 64 < usize::MAX,
        is_path_from(p, 0, c.len() as int),
    ensures
        is_path_from(min_dist_path_spec(c), 0, c.len() as int),
        path_cost(c, min_dist_path_spec(c)) <= path_cost(c, p),
{
    let m = min_dist_path_spec(c);
    if c.len() <= 2 {
        if p.len() > 2 {
            assert(p[0] < p[1] && p[1] < p[p.len() - 1]);
        }
        if p.len() == 2 {
            assert(p[0] < p[1]);
        }
        if c.len() == 2 {
            assert(p.len() == 2);
            assert(p.drop_first().len() == 1);
            assert(m.drop_first().len() == 1);
            assert(m[0] == 0 && m[1] == 1);
            assert(path_cost(c, m.drop_first()) == 0);
            assert(path_cost(c, p.drop_first()) == 0);
            assert(path_cost(c, m) == chord_dist(c[0], c[1]));
            assert(path_cost(c, p) == chord_dist(c[0], c[1]));
        } else {
            assert(p.len() == 1);
        }
    } else {
        lemma_path_from(c, 0);
        lemma_path_optimal(c, p, 0);
    }
}

/// Find the path from the first to the last chord that minimizes the total distance traveled.
/// Each chord is either selected or not; the first and the last always are.
/// The progression must hold fewer than `usize::MAX / 64` chords, a machine limit: a distance
/// is at most 64, so every sum of distances along the progression then fits in a `usize`.
pub fn get_min_dist_path(chords: &Vec<PitchClassSpace>) -> (path: Vec<usize>)
    requires
        chords@.len() > 2 ==> forward_distances_defined(chords@),
        chords@.len() * 64 < usize::MAX,
    ensures
        path@ == min_dist_path_spec(chords@),
        chords@.len() >= 1 ==> is_path_from(path@, 0, chords@.len() as int),
        chords@.len() > 2 ==> path_cost(chords@, path@) == min_dist_to_end(chords@, 0),
{
    let n = chords.len();
    let ghost c = chords@;
    if n <= 2 {
        let mut path: Vec<usize> = Vec::new();
        let mut k: usize = 0;
        while k < n
            invariant
                k <= n,
                path@ == Seq::new(k as nat, |q: int| q as usize),
            decreases n - k,
        {
            path.push(k);
            k = k + 1;
            assert(path@ =~= Seq::new(k as nat, |q: int| q as usize));
        }
        return path;
    }
    // dist[i] and best[i] hold the least distance from chord i to the end and the chosen next
    // chord; they are filled from the last chord backwards.
    let mut dist: Vec<usize> = Vec::new();
    let mut best: Vec<usize> = Vec::new();
    let mut f: usize = 0;
    while f < n
        invariant
            f <= n,
            dist@.len() == f,
            best@.len() == f,
        decreases n - f,
    {
        dist.push(0);
        best.push(0);
        f = f + 1;
    }
    let mut remaining: usize = n;
    while remaining > 0
        invariant
            c == chords@,
            n == c.len(),
            n >= 1,
            c.len() * 64 < usize::MAX,
            forward_distances_defined(c),
            remaining <= n,
            dist@.len() == n,
            best@.len() == n,
            forall|j: int| remaining <= j < n ==> #[trigger] dist@[j] == min_dist_to_end(c, j),
            forall|j: int| remaining <= j < n - 1 ==> #[trigger] best@[j] == best_next(c, j),
        decreases remaining,
    {
        let index = remaining - 1;
        if index < n - 1 {
            let mut best_dist: usize = usize::MAX;
            let mut best_index: usize = 0;
            let mut next_index: usize = index + 1;
            while next_index < n
                invariant
                    c == chords@,
                    n == c.len(),
                    c.len() * 64 < usize::MAX,
                    forward_distances_defined(c),
                    index < n - 1,
                    index + 1 <= next_index <= n,
                    dist@.len() == n,
                    forall|j: int| index < j < n ==> #[trigger] dist@[j] == min_dist_to_end(c, j),
                    (best_dist as int, best_index as int) == scan_best(
                        c,
                        index as int,
                        next_index as int,
                    ),
                decreases n - next_index,
            {
                proof {
                    lemma_min_dist(c, next_index as int);
                }
                assert(chord_dist_defined(c[index as int], c[next_index as int]));
                let d = chords[index].total_distance(&chords[next_index]);
                let total = d + dist[next_index];
                assert(total == step_cost(c, index as int, next_index as int));
                if total < best_dist {
                    best_dist = total;
                    best_index = next_index;
                }
                next_index = next_index + 1;
            }
            proof {
                lemma_min_dist(c, index as int);
            }
            dist.set(index, best_dist);
            best.set(index, best_index);
        } else {
            dist.set(index, 0);
        }
        remaining = index;
    }
    // now follow the chosen next chords from the first
    let mut path: Vec<usize> = Vec::new();
    let mut current: usize = 0;
    path.push(0);
    proof {
        lemma_path_from(c, 0);
    }
    while current < n - 1
        invariant
            c == chords@,
            n == c.len(),
            n >= 1,
            c.len() * 64 < usize::MAX,
            forward_distances_defined(c),
            current < n,
            best@.len() == n,
            forall|j: int| 0 <= j < n - 1 ==> #[trigger] best@[j] == best_next(c, j),
            path@ + path_from(c, current as int).drop_first() == path_from(c, 0),
            path@.len() >= 1,
            path@[path@.len() - 1] == current,
        decreases n - current,
    {
        proof {
            lemma_min_dist(c, current as int);
        }
        let next = best[current];
        let ghost old_path = path@;
        path.push(next);
        proof {
            let rest = path_from(c, next as int);
            assert(path_from(c, current as int) == seq![current] + rest);
            assert(path_from(c, current as int).drop_first() =~= rest);
            assert(rest[0] == next) by {
                lemma_path_from(c, next as int);
            }
            assert(path@ + rest.drop_first() =~= old_path + rest);
        }
        current = next;
    }
    proof {
        assert(path_from(c, current as int) == seq![current]);
        assert(path@ =~= path_from(c, 0));
    }
    path
}

} // verus!
