use music_grammar::composition::Volume;
use music_grammar::lilypond::{LilyPondConfig, LilyPondRenderer};
use music_grammar::music_primitives::{Beats, Duration, NoteValue, Pitch, TimeSignature};

#[test]
fn test_pitch_to_lilypond() {
    let renderer = LilyPondRenderer::with_defaults();

    // Middle C (C4)
    assert_eq!(renderer.pitch_to_lilypond(Pitch::new(4, 0)), "c'");

    // C3
    assert_eq!(renderer.pitch_to_lilypond(Pitch::new(3, 0)), "c");

    // C5
    assert_eq!(renderer.pitch_to_lilypond(Pitch::new(5, 0)), "c''");

    // C2
    assert_eq!(renderer.pitch_to_lilypond(Pitch::new(2, 0)), "c,");

    // A4 (A above middle C)
    assert_eq!(renderer.pitch_to_lilypond(Pitch::new(4, 9)), "a'");

    // F#4
    assert_eq!(renderer.pitch_to_lilypond(Pitch::new(4, 6)), "fis'");

    // Bb3
    assert_eq!(renderer.pitch_to_lilypond(Pitch::new(3, 10)), "bes");
}

#[test]
fn test_duration_to_lilypond() {
    let renderer = LilyPondRenderer::with_defaults();
    let ts = TimeSignature::common();

    // Quarter note
    let quarter = Duration::from_beats_with_ts(Beats::from_integer(1), ts);
    assert_eq!(renderer.duration_to_lilypond(quarter), "4");

    // Half note
    let half = Duration::from_beats_with_ts(Beats::from_integer(2), ts);
    assert_eq!(renderer.duration_to_lilypond(half), "2");

    // Whole note
    let whole = Duration::from_beats_with_ts(Beats::from_integer(4), ts);
    assert_eq!(renderer.duration_to_lilypond(whole), "1");
}

#[test]
fn lilypond_flats_and_low_octaves() {
    let renderer = LilyPondRenderer::new(LilyPondConfig::default());
    assert_eq!(renderer.pitch_to_lilypond(Pitch::new(0, 3)), "ees,,,");
    assert_eq!(renderer.pitch_to_lilypond(Pitch::new(6, 8)), "aes'''");
    assert_eq!(renderer.pitch_to_lilypond(Pitch::new(3, 1)), "cis");
}

#[test]
fn lilypond_other_durations() {
    let renderer = LilyPondRenderer::with_defaults();
    let ts = TimeSignature::common();
    let zero = Duration::zero(ts);
    assert_eq!(renderer.duration_to_lilypond(zero), "64");
    let three_wholes = NoteValue::new(3, 1).with(ts);
    assert_eq!(renderer.duration_to_lilypond(three_wholes), "1~1~1");
    let dotted_quarter = NoteValue::new(3, 8).with(ts);
    assert_eq!(renderer.duration_to_lilypond(dotted_quarter), "3");
    let tiny = NoteValue::new(3, 1000).with(ts);
    assert_eq!(renderer.duration_to_lilypond(tiny), "128");
}

#[test]
fn lilypond_dynamics() {
    let renderer = LilyPondRenderer::with_defaults();
    assert_eq!(renderer.volume_to_lilypond_dynamics(Volume(100)), "\\ff");
    assert_eq!(renderer.volume_to_lilypond_dynamics(Volume(80)), "\\f");
    assert_eq!(renderer.volume_to_lilypond_dynamics(Volume(60)), "\\mf");
    assert_eq!(renderer.volume_to_lilypond_dynamics(Volume(50)), "\\mp");
    assert_eq!(renderer.volume_to_lilypond_dynamics(Volume(30)), "\\p");
    assert_eq!(renderer.volume_to_lilypond_dynamics(Volume(0)), "\\pp");
}
