use music_grammar::cfg::{
    Grammar, GrammarDerivation, GrammarDerivationConfig, MusicPrimitive, MusicString, NonTerminal, Production,
    Symbol, Terminal, TerminalNote,
};
use music_grammar::generate::GrammarDerivationGenerator;
use music_grammar::music_primitives::{Duration, NoteValue, Pitch, TimeSignature};
use rand::rngs::StdRng;
use rand::SeedableRng;

fn quarter_rest(ts: TimeSignature) -> GrammarDerivation {
    GrammarDerivation::TLeaf(Terminal::AbsoluteSound {
        duration: Duration::zero(ts).plus_note_value(NoteValue::new(1, 4)),
        note: TerminalNote::Rest,
    })
}

fn nt(name: &str) -> NonTerminal {
    NonTerminal::Custom(name.to_string())
}

fn branch(name: &str, children: Vec<GrammarDerivation>) -> GrammarDerivation {
    GrammarDerivation::Branch { nt: nt(name), content: children }
}

fn minimal_generator(max_depth: usize) -> GrammarDerivationGenerator {
    let ts = TimeSignature::common();
    let grammar = Grammar::new(nt("S"), vec![], ts);
    GrammarDerivationGenerator::new(
        GrammarDerivationConfig { iterations: 1, panic_on_bad_production: false, rounded: false, max_depth },
        &grammar,
    )
}

#[test]
fn test_pick_random_nt_filter_returns_only_matching_nt() {
    let ts = TimeSignature::common();
    let tree = branch(
        "S",
        vec![
            branch("A", vec![quarter_rest(ts)]),
            branch("B", vec![quarter_rest(ts)]),
            branch("D", vec![quarter_rest(ts)]),
        ],
    );
    let mut rng = StdRng::seed_from_u64(7);
    for _ in 0..50 {
        let (path, _depth) =
            tree.pick_random_nt_mut(&mut rng, Some(&nt("D"))).expect("filter for 'D' should find a node");
        let picked = tree.subtree_at(&path).unwrap();
        assert_eq!(picked.get_nt_root().unwrap(), &nt("D"), "filter must only select 'D'");
    }
}

#[test]
fn test_pick_random_nt_filter_samples_all_matching_nodes() {
    let ts = TimeSignature::common();
    let child_a = || branch("A", vec![quarter_rest(ts)]);
    let tree = branch("S", vec![child_a(), child_a(), child_a()]);
    let mut rng = StdRng::seed_from_u64(11);
    let mut selected_depths = std::collections::HashSet::new();
    let mut selected_paths = std::collections::HashSet::new();
    for _ in 0..200 {
        let (path, depth) =
            tree.pick_random_nt_mut(&mut rng, Some(&nt("A"))).expect("filter for 'A' should always find a node");
        assert_eq!(tree.subtree_at(&path).unwrap().get_nt_root().unwrap(), &nt("A"));
        selected_depths.insert(depth);
        selected_paths.insert(path);
    }
    assert!(selected_depths.contains(&1), "Should have selected children at depth 1");
    assert_eq!(selected_paths.len(), 3);
}

#[test]
fn test_pick_random_nt_filter_returns_none_when_no_match() {
    let ts = TimeSignature::common();
    let tree = branch("S", vec![branch("A", vec![quarter_rest(ts)])]);
    let mut rng = StdRng::seed_from_u64(3);
    let result = tree.pick_random_nt_mut(&mut rng, Some(&nt("MISSING")));
    assert!(result.is_none(), "Should return None when filter matches nothing");
}

#[test]
fn test_prune_collapses_over_depth_branch_to_ntleaf() {
    let ts = TimeSignature::common();
    let mut tree = branch("S", vec![branch("A", vec![branch("B", vec![quarter_rest(ts)])])]);
    let generator = minimal_generator(1);
    generator.prune(&mut tree);
    match &tree {
        GrammarDerivation::Branch { nt: root_nt, content } => {
            assert_eq!(*root_nt, nt("S"));
            assert_eq!(content.len(), 1);
            match &content[0] {
                GrammarDerivation::NTLeaf(n) => assert_eq!(*n, nt("A")),
                other => panic!("expected NTLeaf(A) at depth 1, got {:?}", other),
            }
        }
        other => panic!("expected Branch(S) at root, got {:?}", other),
    }
}

#[test]
fn test_prune_leaves_valid_depth_tree_unchanged() {
    let ts = TimeSignature::common();
    let mut tree = branch("S", vec![branch("A", vec![quarter_rest(ts)])]);
    let generator = minimal_generator(10);
    generator.prune(&mut tree);
    match &tree {
        GrammarDerivation::Branch { nt: root_nt, content } => {
            assert_eq!(*root_nt, nt("S"));
            assert_eq!(content.len(), 1);
            assert!(
                matches!(&content[0], GrammarDerivation::Branch { .. }),
                "Branch(A) within max_depth should survive prune"
            );
        }
        other => panic!("expected Branch(S) at root, got {:?}", other),
    }
}

#[test]
fn test_prune_at_depth_zero_collapses_root() {
    let ts = TimeSignature::common();
    let mut tree = branch("S", vec![quarter_rest(ts)]);
    let generator = minimal_generator(0);
    generator.prune(&mut tree);
    assert!(
        matches!(&tree, GrammarDerivation::NTLeaf(n) if *n == nt("S")),
        "Root Branch should become NTLeaf(S) when max_depth=0, got {:?}",
        tree
    );
}

fn s_grammar(ts: TimeSignature) -> Grammar {
    Grammar::new(
        NonTerminal::Custom("S".to_string()),
        vec![
            Production(
                NonTerminal::Custom("S".to_string()),
                MusicString(vec![
                    MusicPrimitive::Simple(Symbol::T(Terminal::AbsoluteSound {
                        duration: Duration::zero(ts).plus_note_value(NoteValue::new(1, 4)),
                        note: TerminalNote::Note { pitch: Pitch::middle_c() },
                    })),
                    MusicPrimitive::Simple(Symbol::NT(NonTerminal::Custom("S".to_string()))),
                ]),
            ),
            Production(
                NonTerminal::Custom("S".to_string()),
                MusicString(vec![MusicPrimitive::Simple(Symbol::T(Terminal::AbsoluteSound {
                    duration: Duration::zero(ts).plus_note_value(NoteValue::new(1, 4)),
                    note: TerminalNote::Rest,
                }))]),
            ),
        ],
        ts,
    )
}

#[test]
fn test_grammar_derivation_generator() {
    let ts = TimeSignature::common();
    let grammar = s_grammar(ts);
    let config = GrammarDerivationConfig { iterations: 0, panic_on_bad_production: true, rounded: false, max_depth: 3 };
    let generator = GrammarDerivationGenerator::new(config, &grammar);
    let mut rng = StdRng::seed_from_u64(5);
    let derivation = generator.produce(&mut rng);
    match &derivation {
        GrammarDerivation::Branch { nt, content } => {
            assert_eq!(nt.clone(), NonTerminal::Custom("S".to_string()));
            assert!(!content.is_empty());
            assert!(content.len() == 1 || content.len() == 2);
        }
        _ => panic!("Expected a Production node"),
    }
    let ms = derivation.to_music_string();
    assert!(matches!(&ms.0[0], MusicPrimitive::Simple(Symbol::T(Terminal::AbsoluteSound { .. }))));
}

#[test]
fn rewriting_replaces_every_non_terminal() {
    let ts = TimeSignature::common();
    let grammar = s_grammar(ts);
    let mut rng = StdRng::seed_from_u64(9);
    let ms = MusicString(vec![MusicPrimitive::Simple(Symbol::NT(nt("S")))]);
    let once = ms.parallel_rewrite(&grammar, &mut rng, true);
    assert!(once.0.len() == 1 || once.0.len() == 2);
    let unknown = MusicString(vec![MusicPrimitive::Simple(Symbol::NT(nt("X")))]);
    assert_eq!(unknown.parallel_rewrite(&grammar, &mut rng, false).0.len(), 0);
    let many = ms.parallel_rewrite_n(&grammar, &mut rng, true, 3);
    assert!(many.0.len() >= 1 && many.0.len() <= 4);
    assert!(grammar.get_production(&nt("S")).is_some());
    assert!(grammar.get_production(&nt("X")).is_none());
}

#[test]
fn counting_replacing_and_re_expanding() {
    let ts = TimeSignature::common();
    let mut tree = branch("S", vec![GrammarDerivation::NTLeaf(nt("S")), quarter_rest(ts)]);
    assert_eq!(tree.count_filtered_nts(None), 2);
    assert_eq!(tree.count_filtered_nts(Some(&nt("S"))), 2);
    assert_eq!(tree.count_all_nts(), 2);
    assert!(tree.replace_at(&vec![1], GrammarDerivation::NTLeaf(nt("A"))));
    assert!(!tree.replace_at(&vec![5], GrammarDerivation::NTLeaf(nt("A"))));
    assert_eq!(tree.count_filtered_nts(Some(&nt("A"))), 1);
    let generator = GrammarDerivationGenerator::new(
        GrammarDerivationConfig { iterations: 2, panic_on_bad_production: false, rounded: false, max_depth: 4 },
        &s_grammar(ts),
    );
    let mut rng = StdRng::seed_from_u64(1);
    let before = tree.count_filtered_nts(None);
    generator.re_expand_random_nt(&mut tree, &mut rng);
    assert!(tree.count_filtered_nts(None) >= 1 && before == 3);
    let produced = generator.produce(&mut rng);
    assert!(produced.is_nt_root());
}

#[test]
fn pick_nt_at_counts_nodes_in_search_order() {
    let ts = TimeSignature::common();
    let tree = branch(
        "S",
        vec![
            branch("A", vec![quarter_rest(ts)]),
            branch("B", vec![quarter_rest(ts)]),
            branch("D", vec![quarter_rest(ts)]),
        ],
    );
    assert_eq!(tree.pick_nt_at(None, 0), Some((vec![], 0)));
    assert_eq!(tree.pick_nt_at(None, 1), Some((vec![0], 1)));
    assert_eq!(tree.pick_nt_at(None, 3), Some((vec![2], 1)));
    assert_eq!(tree.pick_nt_at(None, 4), None);
    assert_eq!(tree.pick_nt_at(Some(&nt("D")), 0), Some((vec![2], 1)));
    assert_eq!(tree.pick_nt_at(Some(&nt("D")), 1), None);
}

#[test]
fn get_production_at_counts_productions_of_the_non_terminal() {
    let ts = TimeSignature::common();
    let g = s_grammar(ts);
    let first = g.get_production_at(&nt("S"), 0).unwrap();
    assert_eq!(first.1 .0.len(), 2);
    let second = g.get_production_at(&nt("S"), 1).unwrap();
    assert_eq!(second.1 .0.len(), 1);
    assert!(g.get_production_at(&nt("S"), 2).is_none());
    assert!(g.get_production_at(&nt("T"), 0).is_none());
}

fn child_count(d: &GrammarDerivation) -> usize {
    match d {
        GrammarDerivation::Branch { content, .. } => content.len(),
        _ => 0,
    }
}

#[test]
fn crossover_replaces_a_node_with_one_of_the_same_non_terminal() {
    let ts = TimeSignature::common();
    let mine = branch("S", vec![branch("A", vec![quarter_rest(ts)]), branch("B", vec![quarter_rest(ts)])]);
    let other = branch("S", vec![branch("B", vec![quarter_rest(ts)]), branch("A", vec![quarter_rest(ts), quarter_rest(ts)])]);
    let crossed = mine.crossover_with_at(&other, &vec![0], 0).unwrap();
    let a = crossed.subtree_at(&vec![0]).unwrap();
    assert_eq!(a.get_nt_root().unwrap(), &nt("A"));
    assert_eq!(child_count(a), 2);
    assert_eq!(child_count(crossed.subtree_at(&vec![1]).unwrap()), 1);
    assert!(mine.crossover_with_at(&other, &vec![0], 1).is_none());
    assert!(mine.crossover_with_at(&other, &vec![0, 0], 0).is_none());
    let mut rng = StdRng::seed_from_u64(3);
    let drawn = mine.crossover_at(&other, &vec![0], &mut rng).unwrap();
    assert_eq!(child_count(drawn.subtree_at(&vec![0]).unwrap()), 2);
    let lonely = branch("S", vec![branch("C", vec![quarter_rest(ts)])]);
    assert!(lonely.crossover_at(&other, &vec![0], &mut rng).is_none());
}

#[test]
fn law_pruning_twice_prunes_as_once() {
    let ts = TimeSignature::common();
    let mut tree = branch(
        "S",
        vec![branch("A", vec![branch("B", vec![branch("C", vec![quarter_rest(ts)])])]), quarter_rest(ts)],
    );
    let generator = minimal_generator(2);
    generator.prune(&mut tree);
    let once = format!("{:?}", tree);
    generator.prune(&mut tree);
    assert_eq!(format!("{:?}", tree), once);
}
