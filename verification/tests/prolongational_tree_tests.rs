use music_grammar::pitch_class_space::{PitchClassSpace, SpaceLevel};
use music_grammar::prolongational_tree::{get_min_dist_path, Strength, Tree};


fn chords_from_diatonic_offsets(offsets: &[isize]) -> Vec<PitchClassSpace> {
    offsets
        .iter()
        .map(|&o| {
            let mut c = PitchClassSpace::c_maj();
            c.rotate_on_level(SpaceLevel::Diatonic, o);
            c
        })
        .collect()
}

/// Helper: assert a path is valid for the given chord count.
fn assert_valid_path(path: &Vec<usize>, n: usize) {
    assert!(!path.is_empty(), "path must not be empty");
    assert_eq!(path[0], 0, "path must start at 0");
    assert_eq!(path[path.len() - 1], n - 1, "path must end at last index");
    // strictly increasing
    for w in path.windows(2) {
        assert!(w[0] < w[1], "path must be strictly increasing: {:?}", path);
    }
}

#[test]
fn get_min_dist_path_one_chord() {
    let chords = vec![PitchClassSpace::c_maj()];
    let path = get_min_dist_path(&chords);
    assert_valid_path(&path, 1);
    assert_eq!(path, vec![0]);
}

#[test]
fn get_min_dist_path_two_chords() {
    let chords = chords_from_diatonic_offsets(&[0, 4]);
    let path = get_min_dist_path(&chords);
    assert_valid_path(&path, 2);
    assert_eq!(path, vec![0, 1]);
}

#[test]
fn get_min_dist_path_three_chords_valid() {
    // Three chords: must start at 0, end at 2, be strictly increasing.
    let chords = chords_from_diatonic_offsets(&[0, 4, 1]);
    let path = get_min_dist_path(&chords);
    assert_valid_path(&path, 3);
}

#[test]
fn get_min_dist_path_four_chords_valid() {
    let chords = chords_from_diatonic_offsets(&[0, 4, 1, 5]);
    let path = get_min_dist_path(&chords);
    assert_valid_path(&path, 4);
}

#[test]
fn get_min_dist_path_five_chords_valid() {
    let chords = chords_from_diatonic_offsets(&[0, 3, 1, 5, 2]);
    let path = get_min_dist_path(&chords);
    assert_valid_path(&path, 5);
}

/// The chosen path must have total distance ≤ every other valid path.
#[test]
fn get_min_dist_path_is_actually_minimum() {
    let chords = chords_from_diatonic_offsets(&[0, 3, 1, 5, 2]);
    let n = chords.len();
    let path = get_min_dist_path(&chords);
    assert_valid_path(&path, n);

    let path_dist: usize = path
        .windows(2)
        .map(|w| chords[w[0]].total_distance(&chords[w[1]]))
        .sum();

    // Brute-force all subsets that include 0 and n-1
    let mut best = usize::MAX;
    for mask in 0u32..(1u32 << n) {
        if mask & 1 == 0 || mask & (1 << (n - 1)) == 0 {
            continue;
        }
        let subset: Vec<usize> = (0..n).filter(|&i| mask & (1 << i) != 0).collect();
        let d: usize = subset
            .windows(2)
            .map(|w| chords[w[0]].total_distance(&chords[w[1]]))
            .sum();
        if d < best {
            best = d;
        }
    }
    assert_eq!(
        path_dist, best,
        "path distance {} is not the minimum {}; path: {:?}",
        path_dist, best, path
    );
}


fn leaf(v: i32) -> Tree<i32> {
    Tree::Leaf(v)
}

fn tensing(left: Tree<i32>, right: Tree<i32>) -> Tree<i32> {
    Tree::Tensing(Box::new(left), Box::new(right), Strength::Weak)
}

fn relaxing(left: Tree<i32>, right: Tree<i32>) -> Tree<i32> {
    Tree::Relaxing(Box::new(left), Box::new(right), Strength::Weak)
}

fn collect_leaves(tree: &Tree<i32>) -> Vec<i32> {
    match tree {
        Tree::Leaf(v) => vec![*v],
        Tree::Tensing(l, r, _) | Tree::Relaxing(l, r, _) => {
            let mut v = collect_leaves(l);
            v.extend(collect_leaves(r));
            v
        }
    }
}

#[test]
fn pop_last_on_leaf_returns_none() {
    let mut t = leaf(42);
    assert_eq!(t.pop_last(), None);
    // tree unchanged
    assert_eq!(collect_leaves(&t), vec![42]);
}

#[test]
fn pop_last_two_node_tree() {
    // tensing(1, 2) → pops 2, tree becomes leaf(1)
    let mut t = tensing(leaf(1), leaf(2));
    assert_eq!(t.pop_last(), Some(2));
    assert_eq!(collect_leaves(&t), vec![1]);
}

#[test]
fn pop_last_two_node_relaxing() {
    let mut t = relaxing(leaf(10), leaf(20));
    assert_eq!(t.pop_last(), Some(20));
    assert_eq!(collect_leaves(&t), vec![10]);
}

#[test]
fn pop_last_deep_right_chain() {
    // tensing(1, tensing(2, tensing(3, 4)))
    // pops 4, leaving tensing(1, tensing(2, 3))
    let mut t = tensing(leaf(1), tensing(leaf(2), tensing(leaf(3), leaf(4))));
    assert_eq!(t.pop_last(), Some(4));
    assert_eq!(collect_leaves(&t), vec![1, 2, 3]);
}

#[test]
fn pop_last_does_not_touch_left_subtree() {
    // tensing(tensing(1, 2), tensing(3, 4))
    // rightmost is 4; left subtree stays intact
    let mut t = tensing(tensing(leaf(1), leaf(2)), tensing(leaf(3), leaf(4)));
    assert_eq!(t.pop_last(), Some(4));
    assert_eq!(collect_leaves(&t), vec![1, 2, 3]);
}

#[test]
fn pop_last_multiple_consecutive() {
    // tensing(1, tensing(2, tensing(3, 4)))
    // pop → 4, pop → 3, pop → 2, pop → None (single leaf left)
    let mut t = tensing(leaf(1), tensing(leaf(2), tensing(leaf(3), leaf(4))));
    assert_eq!(t.pop_last(), Some(4));
    assert_eq!(t.pop_last(), Some(3));
    assert_eq!(t.pop_last(), Some(2));
    // tree is now just leaf(1)
    assert_eq!(collect_leaves(&t), vec![1]);
    assert_eq!(t.pop_last(), None);
}

#[test]
fn pop_last_mixed_tensing_relaxing() {
    // tensing(relaxing(1, 2), relaxing(3, 4))
    let mut t = tensing(relaxing(leaf(1), leaf(2)), relaxing(leaf(3), leaf(4)));
    assert_eq!(t.pop_last(), Some(4));
    assert_eq!(collect_leaves(&t), vec![1, 2, 3]);
}

#[test]
fn pop_first_on_leaf_returns_none() {
    let mut t = leaf(42);
    assert_eq!(t.pop_first(), None);
    assert_eq!(collect_leaves(&t), vec![42]);
}

#[test]
fn pop_first_two_node_tree() {
    // tensing(1, 2) → pops 1, tree becomes leaf(2)
    let mut t = tensing(leaf(1), leaf(2));
    assert_eq!(t.pop_first(), Some(1));
    assert_eq!(collect_leaves(&t), vec![2]);
}

#[test]
fn pop_first_two_node_relaxing() {
    let mut t = relaxing(leaf(10), leaf(20));
    assert_eq!(t.pop_first(), Some(10));
    assert_eq!(collect_leaves(&t), vec![20]);
}

#[test]
fn pop_first_deep_left_chain() {
    // tensing(tensing(tensing(1, 2), 3), 4)
    // pops 1, leaving tensing(tensing(2, 3), 4)
    let mut t = tensing(tensing(tensing(leaf(1), leaf(2)), leaf(3)), leaf(4));
    assert_eq!(t.pop_first(), Some(1));
    assert_eq!(collect_leaves(&t), vec![2, 3, 4]);
}

#[test]
fn pop_first_does_not_touch_right_subtree() {
    // tensing(tensing(1, 2), tensing(3, 4))
    // leftmost is 1; right subtree stays intact
    let mut t = tensing(tensing(leaf(1), leaf(2)), tensing(leaf(3), leaf(4)));
    assert_eq!(t.pop_first(), Some(1));
    assert_eq!(collect_leaves(&t), vec![2, 3, 4]);
}

#[test]
fn pop_first_multiple_consecutive() {
    // tensing(tensing(tensing(1, 2), 3), 4)
    // pop → 1, pop → 2, pop → 3, tree is leaf(4), pop → None
    let mut t = tensing(tensing(tensing(leaf(1), leaf(2)), leaf(3)), leaf(4));
    assert_eq!(t.pop_first(), Some(1));
    assert_eq!(t.pop_first(), Some(2));
    assert_eq!(t.pop_first(), Some(3));
    assert_eq!(collect_leaves(&t), vec![4]);
    assert_eq!(t.pop_first(), None);
}

#[test]
fn pop_first_mixed_tensing_relaxing() {
    let mut t = tensing(relaxing(leaf(1), leaf(2)), relaxing(leaf(3), leaf(4)));
    assert_eq!(t.pop_first(), Some(1));
    assert_eq!(collect_leaves(&t), vec![2, 3, 4]);
}
