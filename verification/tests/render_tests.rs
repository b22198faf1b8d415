use music_grammar::composition::{Composition, Event, Instrument, Track, TrackId, Volume};
use music_grammar::lilypond::{LilyPondConfig, LilyPondRenderer};
use music_grammar::music_primitives::{Beats, Duration, NoteValue, Pitch, TimeSignature};

fn beats(n: u32, ts: TimeSignature) -> Duration {
    Duration::from_beats_with_ts(Beats::from_integer(n), ts)
}

fn one_track(events: Vec<Event>, rests: Vec<Event>, ts: TimeSignature) -> Composition {
    Composition {
        time_signature: ts,
        tracks: vec![Track {
            identifier: TrackId::Instrument(Instrument::Piano),
            instrument: Instrument::Piano,
            events,
            rests,
        }],
    }
}

#[test]
fn test_render_simple_composition() {
    let ts = TimeSignature::common();
    let renderer = LilyPondRenderer::with_defaults();

    let composition = Composition {
        time_signature: ts,
        tracks: vec![Track {
            identifier: TrackId::Instrument(Instrument::Piano),
            instrument: Instrument::Piano,
            events: vec![
                Event {
                    start: Duration::from_beats_with_ts(Beats::from_integer(0), ts),
                    duration: Duration::from_beats_with_ts(Beats::from_integer(1), ts),
                    volume: Volume(80),
                    pitch: Pitch::new(4, 0), // C4
                },
                Event {
                    start: Duration::from_beats_with_ts(Beats::from_integer(1), ts),
                    duration: Duration::from_beats_with_ts(Beats::from_integer(1), ts),
                    volume: Volume(80),
                    pitch: Pitch::new(4, 2), // D4
                },
            ],
            rests: vec![],
        }],
    };

    let output = renderer.render(&composition);

    // Check that output contains expected elements
    assert!(output.contains("\\version"));
    assert!(output.contains("\\score"));
    assert!(output.contains("\\time 4/4"));
    assert!(output.contains("c'"));
    assert!(output.contains("d'"));
}

#[test]
fn rendered_score_in_full() {
    let ts = TimeSignature::common();
    let c = one_track(
        vec![
            Event { start: beats(1, ts), duration: beats(1, ts), volume: Volume(80), pitch: Pitch::new(4, 0) },
            Event { start: beats(2, ts), duration: beats(2, ts), volume: Volume(50), pitch: Pitch::new(4, 2) },
        ],
        vec![],
        ts,
    );
    let out = LilyPondRenderer::with_defaults().render(&c);
    let expected = "\\version \"2.24.0\"\n\n\\score {\n  <<\n    \\new Staff {\n      \\set Staff.instrumentName = \"Piano\"\n      \\time 4/4\n      \\absolute {\n        r4 c'4\\f d'2\\mp\n      }\n      \\bar \"|.\"\n    }\n  >>\n  \\layout { }\n  \\midi {\n    \\tempo 4 = 120\n  }\n}\n";
    assert_eq!(out, expected);
}

#[test]
fn notes_across_a_bar_line_are_tied() {
    let ts = TimeSignature::common();
    let c = one_track(
        vec![
            Event { start: beats(0, ts), duration: beats(3, ts), volume: Volume(80), pitch: Pitch::new(4, 0) },
            Event { start: beats(3, ts), duration: beats(6, ts), volume: Volume(80), pitch: Pitch::new(4, 2) },
        ],
        vec![],
        ts,
    );
    let config = LilyPondConfig { write_dynamics: false, ..LilyPondConfig::default() };
    let out = LilyPondRenderer::new(config).render(&c);
    assert!(out.contains("        c'2~c'4 d'4~d'1~d'4\n"), "{}", out);
}

#[test]
fn rests_across_a_bar_line_are_not_tied() {
    let ts = TimeSignature::common();
    let c = one_track(
        vec![],
        vec![Event { start: beats(2, ts), duration: beats(4, ts), volume: Volume(0), pitch: Pitch::none() }],
        ts,
    );
    let out = LilyPondRenderer::with_defaults().render(&c);
    assert!(out.contains("        r2 r2 r2\n"), "{}", out);
}

#[test]
fn header_block_with_title_and_composer() {
    let ts = TimeSignature::common();
    let c = one_track(vec![], vec![], ts);
    let config = LilyPondConfig {
        title: Some("Song".to_string()),
        composer: Some("Me".to_string()),
        tempo: None,
        ..LilyPondConfig::default()
    };
    let out = LilyPondRenderer::new(config).render(&c);
    assert!(out.starts_with("\\version \"2.24.0\"\n\n\\header {\n  title = \"Song\"\n  composer = \"Me\"\n}\n\n\\score {\n"));
    assert!(out.ends_with("  \\midi {\n  }\n}\n"));
}

#[test]
fn overlapping_notes_cannot_be_rendered() {
    let ts = TimeSignature::common();
    let c = one_track(
        vec![
            Event { start: beats(0, ts), duration: beats(2, ts), volume: Volume(80), pitch: Pitch::new(4, 0) },
            Event { start: beats(1, ts), duration: beats(2, ts), volume: Volume(80), pitch: Pitch::new(4, 2) },
        ],
        vec![],
        ts,
    );
    assert!(LilyPondRenderer::with_defaults().try_render(&c).is_none());
}

#[test]
fn triplet_lengths_cannot_be_rendered() {
    let ts = TimeSignature::common();
    let third = Duration::zero(ts).plus_note_value(NoteValue::new(1, 3));
    let c = one_track(
        vec![Event { start: beats(0, ts), duration: third, volume: Volume(80), pitch: Pitch::new(4, 0) }],
        vec![],
        ts,
    );
    assert!(LilyPondRenderer::with_defaults().try_render(&c).is_none());
}

#[test]
fn binary_expansion_of_lengths() {
    let ts = TimeSignature::common();
    let v = Duration::zero(ts).plus_note_value(NoteValue::new(11, 8));
    assert!(v.binary_expandable());
    let pieces = v.binary_expand(None);
    let values: Vec<(u32, u32)> = pieces.iter().map(|d| (d.value.0.numer(), d.value.0.denom())).collect();
    assert_eq!(values, vec![(1, 1), (1, 4), (1, 8)]);
    let coarse = v.binary_expand(Some(-2));
    assert_eq!(coarse.len(), 2);
    let third = Duration::zero(ts).plus_note_value(NoteValue::new(1, 3));
    assert!(!third.binary_expandable());
}

#[test]
fn note_value_binary_expansion() {
    let v = NoteValue::new(3, 4);
    assert!(v.binary_expandable());
    let pieces: Vec<(u32, u32)> = v.binary_expand(None).iter().map(|p| (p.0.numer(), p.0.denom())).collect();
    assert_eq!(pieces, vec![(1, 2), (1, 4)]);
    assert!(!NoteValue::new(2, 3).binary_expandable());
}
