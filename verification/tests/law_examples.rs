use music_grammar::analysis::extract_symbolic_chord_structure;
use music_grammar::cfg::{GrammarDerivation, MusicTransform, NonTerminal};
use music_grammar::lerdahl::get_total_interchordal_distances;
use music_grammar::pitch_class_space::PitchClassSpace;
use music_grammar::pitch_class_space::SpaceLevel::{Chromatic, Diatonic};
use music_grammar::prolongational_tree::{find_best_tension_relaxation_split_and_score, Strength, Tree};

fn chord(name: &str) -> GrammarDerivation {
    GrammarDerivation::NTLeaf(NonTerminal::Custom(name.to_string()))
}

#[test]
fn law_tree_has_one_more_leaf_than_branchings() {
    let t: Tree<usize> = Tree::Tensing(
        Box::new(Tree::Relaxing(Box::new(Tree::Leaf(0)), Box::new(Tree::Leaf(1)), Strength::Weak)),
        Box::new(Tree::Tensing(Box::new(Tree::Leaf(2)), Box::new(Tree::Leaf(3)), Strength::Strong)),
        Strength::Progression,
    );
    assert_eq!(t.count_tensing() + t.count_relaxing() + 1, t.count_leaves());
    assert_eq!(t.count_branchings(true), t.count_tensing());
    assert_eq!(t.count_branchings(false), t.count_relaxing());
    assert_eq!(t.count_leaves(), 4);
}

#[test]
fn law_interchordal_distance_adds_one_step() {
    let initial = PitchClassSpace::c_maj();
    let v: PitchClassSpace = "V".parse().unwrap();
    let ii: PitchClassSpace = "ii".parse().unwrap();
    assert_eq!(get_total_interchordal_distances(&vec![], &initial), 0);
    let one = get_total_interchordal_distances(&vec![v], &initial);
    assert_eq!(one, initial.total_distance(&v));
    let two = get_total_interchordal_distances(&vec![v, ii], &initial);
    assert_eq!(two, one + v.total_distance(&ii));
}

#[test]
fn law_rotation_undoes_and_repeats() {
    let start = PitchClassSpace::c_maj();
    let mut s = start;
    s.rotate_on_level(Diatonic, 3);
    let mut back = s;
    back.rotate_on_level(Diatonic, -3);
    assert_eq!(back, start);
    let mut full = start;
    full.rotate_on_level(Diatonic, 3 + 7);
    assert_eq!(full, s);
    let mut c = start;
    c.rotate_on_level(Chromatic, 5);
    c.rotate_on_level(Chromatic, -5);
    assert_eq!(c, start);
}

#[test]
fn law_regional_distance_is_at_most_six() {
    let c = PitchClassSpace::c_maj();
    let f_sharp: PitchClassSpace = "I/#IV".parse().unwrap();
    assert_eq!(c.regional_distance(&f_sharp), 6);
    let g: PitchClassSpace = "I/V".parse().unwrap();
    assert_eq!(c.regional_distance(&g), 1);
    let f: PitchClassSpace = "I/IV".parse().unwrap();
    assert_eq!(c.regional_distance(&f), 1);
}

#[test]
fn law_chords_of_a_repeat_and_of_a_sequence() {
    let repeated = GrammarDerivation::Wrapped {
        transform: MusicTransform::Repeat { num: 3 },
        content: vec![chord("#I"), chord("#V")],
    };
    let names = extract_symbolic_chord_structure(&repeated, "#");
    assert_eq!(names, vec!["I", "V", "I", "V", "I", "V"]);
    let seq = GrammarDerivation::Branch {
        nt: NonTerminal::Custom("S".to_string()),
        content: vec![chord("#ii"), repeated],
    };
    assert_eq!(
        extract_symbolic_chord_structure(&seq, "#"),
        vec!["ii", "I", "V", "I", "V", "I", "V"]
    );
}

#[test]
fn law_rotation_permutes_the_levels() {
    let start = PitchClassSpace::c_maj();
    let mut s = start;
    s.rotate_on_level(Diatonic, 2);
    let mut a = start.highest_levels.to_vec();
    let mut b = s.highest_levels.to_vec();
    a.sort();
    b.sort();
    assert_eq!(a, b);
    assert_ne!(s, start);
}

#[test]
fn law_best_split_trees_cover_the_chords() {
    let names = ["I", "IV", "V", "vi", "ii", "V", "I"];
    let chords: Vec<PitchClassSpace> = names.iter().map(|n| n.parse().unwrap()).collect();
    let root = PitchClassSpace::c_maj();
    let (score, left, right) = find_best_tension_relaxation_split_and_score(&chords, &root);
    if score > 0 {
        assert_eq!(left.count_leaves() + right.count_leaves(), chords.len());
    } else {
        assert_eq!(left.count_leaves() + right.count_leaves(), 2);
    }
}
