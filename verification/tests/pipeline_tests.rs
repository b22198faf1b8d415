use music_grammar::cfg::GrammarDerivationConfig;
use music_grammar::composition::Instrument;
use music_grammar::music_primitives::{Beats, Duration, TimeSignature};
use music_grammar::pipeline::{compose_from_text, grammar_from_text, RenderError};
use rand::rngs::StdRng;
use rand::SeedableRng;

#[test]
fn compose_from_text_plays_the_start_rule() {
    let text = "start S\nS = :4c<1/4> :4d<1/4>\n";
    let config = GrammarDerivationConfig { iterations: 1, panic_on_bad_production: true, rounded: false, max_depth: 4 };
    let mut rng = StdRng::seed_from_u64(5);
    let c = compose_from_text(text, config, &mut rng).unwrap();
    let ts = TimeSignature::common();
    assert_eq!(c.tracks.len(), 1);
    assert_eq!(c.tracks[0].instrument, Instrument::Piano);
    assert_eq!(c.tracks[0].events.len(), 2);
    assert_eq!(c.get_end(), Some(Duration::from_beats_with_ts(Beats::from_integer(2), ts)));
}

#[test]
fn compose_from_text_rounds_to_whole_measures() {
    let text = "start S\nS = :4c<1/4> :4d<1/4> :4e<1/4>\n";
    let config = GrammarDerivationConfig { iterations: 1, panic_on_bad_production: false, rounded: true, max_depth: 4 };
    let mut rng = StdRng::seed_from_u64(9);
    let c = compose_from_text(text, config, &mut rng).unwrap();
    let ts = TimeSignature::common();
    assert_eq!(c.get_end(), Some(Duration::measures_with_ts(1, ts)));
    assert_eq!(c.tracks[0].rests.len(), 1);
}

#[test]
fn compose_from_text_reports_bad_grammar() {
    let config = GrammarDerivationConfig { iterations: 1, panic_on_bad_production: false, rounded: false, max_depth: 4 };
    let mut rng = StdRng::seed_from_u64(1);
    assert!(matches!(compose_from_text("S = :4c", config, &mut rng), Err(RenderError::ScanError(_))));
    assert!(matches!(grammar_from_text("begin S"), Err(RenderError::ScanError(_))));
}

#[test]
fn grammar_from_text_reads_productions() {
    let g = grammar_from_text("start Scale\nScale = :4c<1/4> :4d<1/4>\n// a comment\n\nOther = Scale Scale\n").unwrap();
    assert_eq!(g.productions.len(), 2);
    assert_eq!(g.time_signature, TimeSignature::common());
}

#[test]
fn compose_from_text_reports_split_of_different_lengths() {
    let text = "start S\nS = { :4c<1/4> | :4e<1/2> }\n";
    let config = GrammarDerivationConfig { iterations: 1, panic_on_bad_production: true, rounded: false, max_depth: 4 };
    let mut rng = StdRng::seed_from_u64(2);
    match compose_from_text(text, config, &mut rng) {
        Err(RenderError::ComposeError(music_grammar::cfg::ComposeError::MismatchedLengths(m))) => {
            assert!(m.starts_with("Not all split tracks"))
        }
        other => panic!("expected a compose error, got {:?}", other.map(|c| c.tracks.len())),
    }
}
