use music_grammar::cfg::{ComposeError, MusicPrimitive, MusicString, Performer, Symbol, Terminal, TerminalNote, MetaControl, MusicTransform};
use music_grammar::composition::{Composition, Event, Instrument, TimeCompression, Track, TrackId, Volume};
use music_grammar::music_primitives::{Beats, Duration, Pitch, TimeSignature};
use music_grammar::ratio::{Ratio, SignedRatio};
use music_grammar::cfg::err_first;

fn comp_template(events: Vec<Event>) -> Composition {
    Composition {
        tracks: vec![Track {
            identifier: TrackId::Custom(0),
            instrument: Instrument::SineWave,
            events,
            rests: vec![],
        }],
        time_signature: TimeSignature::common(),
    }
}

#[test]
fn test_compression_1() {
    let ts = TimeSignature::common();
    let compression = TimeCompression(SignedRatio::new(1, 2)); // 50% compression
    let mut composition1 = comp_template(vec![Event {
        start: Duration::measures_with_ts(1, ts),
        duration: Duration::from_beats_with_ts(Beats::from_integer(2), ts),
        volume: Volume(100),
        pitch: Pitch::new(4, 0),
    }]);
    let composition_half = comp_template(vec![Event {
        start: Duration::measures_with_ts(1, ts),
        duration: Duration::from_beats_with_ts(Beats::from_integer(1), ts),
        volume: Volume(100),
        pitch: Pitch::new(4, 0),
    }]);
    composition1.compress(compression);
    assert_eq!(composition1, composition_half);
}

#[test]
fn test_compression_2() {
    let ts = TimeSignature::common();
    let compression = TimeCompression(SignedRatio::new(-1, 1)); // -100% compression (reverse)
    let mut composition1 = comp_template(vec![Event {
        start: Duration::measures_with_ts(1, ts),
        duration: Duration::from_beats_with_ts(Beats::from_integer(2), ts),
        volume: Volume(100),
        pitch: Pitch::new(4, 0),
    }]);
    let composition_reversed = comp_template(vec![Event {
        start: Duration::measures_with_ts(1, ts),
        duration: Duration::from_beats_with_ts(Beats::from_integer(2), ts),
        volume: Volume(100),
        pitch: Pitch::new(4, 0),
    }]);
    composition1.compress(compression);
    assert_eq!(composition1, composition_reversed);
}

#[test]
fn test_compression_3() {
    let ts = TimeSignature::common();
    let compression = TimeCompression(SignedRatio::new(-1, 1)); // -100% compression (reverse)
    let mut composition1 = comp_template(vec![
        Event {
            start: Duration::measures_and_beats_with_ts(1, Beats::from_integer(0), ts),
            duration: Duration::from_beats_with_ts(Beats::from_integer(1), ts),
            volume: Volume(100),
            pitch: Pitch::new(4, 0),
        },
        Event {
            start: Duration::measures_and_beats_with_ts(1, Beats::from_integer(1), ts),
            duration: Duration::from_beats_with_ts(Beats::from_integer(1), ts),
            volume: Volume(100),
            pitch: Pitch::new(4, 1),
        },
    ]);
    let composition_reversed = comp_template(vec![
        Event {
            start: Duration::measures_and_beats_with_ts(1, Beats::from_integer(0), ts),
            duration: Duration::from_beats_with_ts(Beats::from_integer(1), ts),
            volume: Volume(100),
            pitch: Pitch::new(4, 1),
        },
        Event {
            start: Duration::measures_and_beats_with_ts(1, Beats::from_integer(1), ts),
            duration: Duration::from_beats_with_ts(Beats::from_integer(1), ts),
            volume: Volume(100),
            pitch: Pitch::new(4, 0),
        },
    ]);
    composition1.compress(compression);
    assert_eq!(composition1, composition_reversed);
}

#[test]
fn test_compression_4() {
    let ts = TimeSignature::common();
    let compression = TimeCompression(SignedRatio::new(1, 2)); // 50% compression
    let mut composition1 = comp_template(vec![
        Event {
            start: Duration::measures_and_beats_with_ts(1, Beats::from_integer(0), ts),
            duration: Duration::from_beats_with_ts(Beats::from_integer(2), ts),
            volume: Volume(100),
            pitch: Pitch::new(4, 0),
        },
        Event {
            start: Duration::measures_and_beats_with_ts(1, Beats::from_integer(2), ts),
            duration: Duration::from_beats_with_ts(Beats::from_integer(2), ts),
            volume: Volume(100),
            pitch: Pitch::new(4, 1),
        },
    ]);
    let composition_half = comp_template(vec![
        Event {
            start: Duration::measures_and_beats_with_ts(1, Beats::from_integer(0), ts),
            duration: Duration::from_beats_with_ts(Beats::from_integer(1), ts),
            volume: Volume(100),
            pitch: Pitch::new(4, 0),
        },
        Event {
            start: Duration::measures_and_beats_with_ts(1, Beats::from_integer(1), ts),
            duration: Duration::from_beats_with_ts(Beats::from_integer(1), ts),
            volume: Volume(100),
            pitch: Pitch::new(4, 1),
        },
    ]);
    composition1.compress(compression);
    assert_eq!(composition1, composition_half);
}

fn piano() -> Performer {
    Performer { instrument: Instrument::Piano, volume: Volume(80), pitch: Pitch::middle_c() }
}

fn sound(beats: u32, ts: TimeSignature) -> MusicPrimitive {
    MusicPrimitive::Simple(Symbol::T(Terminal::CurrentSound {
        duration: Duration::from_beats_with_ts(Beats::from_integer(beats), ts),
    }))
}

#[test]
fn test_compose_v2_1() {
    let ts = TimeSignature::common();
    let music_string = MusicString(vec![MusicPrimitive::Simple(Symbol::T(Terminal::CurrentSound {
        duration: Duration::from_beats_with_ts(Beats::from_integer(2), ts),
    }))]);
    let composition = music_string
        .compose_v2(ts, Performer { instrument: Instrument::Piano, volume: Volume(80), pitch: Pitch::middle_c() })
        .unwrap();
    assert_eq!(composition.tracks.len(), 1);
    let track = &composition.tracks[0];
    assert_eq!(track.instrument, Instrument::Piano);
    assert_eq!(track.events.len(), 1);
    let event = &track.events[0];
    assert_eq!(event.duration, Duration::from_beats_with_ts(Beats::from_integer(2), ts));

    assert_eq!(composition.get_start(), Some(Duration::from_beats_with_ts(Beats::from_integer(0), ts)));
    assert_eq!(composition.get_end(), Some(Duration::from_beats_with_ts(Beats::from_integer(2), ts)));
}

#[test]
fn test_compose_v2_2() {
    // check that different length branches in a split cause an error
    let ts = TimeSignature::common();
    let music_string = MusicString(vec![MusicPrimitive::Split {
        branches: vec![
            MusicString(vec![MusicPrimitive::Simple(Symbol::T(Terminal::CurrentSound {
                duration: Duration::from_beats_with_ts(Beats::from_integer(2), ts),
            }))]),
            MusicString(vec![MusicPrimitive::Simple(Symbol::T(Terminal::CurrentSound {
                duration: Duration::from_beats_with_ts(Beats::from_integer(3), ts),
            }))]),
        ],
    }]);
    let composition = music_string.compose_v2(
        ts,
        Performer { instrument: Instrument::Piano, volume: Volume(80), pitch: Pitch::middle_c() },
    );
    assert!(composition.is_err());
}

#[test]
fn test_compose_v2_3() {
    let ts = TimeSignature::common();
    let music_string = MusicString(vec![MusicPrimitive::Split {
        branches: vec![
            MusicString(vec![MusicPrimitive::Simple(Symbol::T(Terminal::CurrentSound {
                duration: Duration::from_beats_with_ts(Beats::from_integer(2), ts),
            }))]),
            MusicString(vec![MusicPrimitive::Simple(Symbol::T(Terminal::CurrentSound {
                duration: Duration::from_beats_with_ts(Beats::from_integer(2), ts),
            }))]),
        ],
    }]);
    let composition = music_string
        .compose_v2(ts, Performer { instrument: Instrument::Piano, volume: Volume(80), pitch: Pitch::middle_c() })
        .unwrap();

    assert_eq!(composition.tracks.len(), 2);
    for track in &composition.tracks {
        assert_eq!(track.instrument, Instrument::Piano);
        assert_eq!(track.events.len(), 1);
        let event = &track.events[0];
        assert_eq!(event.duration, Duration::from_beats_with_ts(Beats::from_integer(2), ts));
        assert_eq!(event.start, Duration::from_beats_with_ts(Beats::from_integer(0), ts));
    }
}

#[test]
fn compose_mismatch_reports_lengths_error() {
    let ts = TimeSignature::common();
    let ms = MusicString(vec![MusicPrimitive::Split {
        branches: vec![MusicString(vec![sound(1, ts)]), MusicString(vec![sound(2, ts)])],
    }]);
    match ms.compose_v2(ts, piano()) {
        Err(ComposeError::MismatchedLengths(msg)) => {
            assert!(msg.starts_with("Not all split tracks have the same duration"))
        }
        Ok(_) => panic!("expected an error"),
    }
}

#[test]
fn compose_sequence_and_rest_and_meta() {
    let ts = TimeSignature::common();
    let ms = MusicString(vec![
        sound(1, ts),
        MusicPrimitive::Simple(Symbol::T(Terminal::MovePitch { semitones: 2 })),
        sound(1, ts),
        MusicPrimitive::Simple(Symbol::T(Terminal::AbsoluteSound {
            duration: Duration::from_beats_with_ts(Beats::from_integer(2), ts),
            note: TerminalNote::Rest,
        })),
        MusicPrimitive::Simple(Symbol::T(Terminal::Meta(MetaControl::ChangeVolume(Volume(10))))),
        sound(1, ts),
    ]);
    let c = ms.compose_v2(ts, piano()).unwrap();
    assert_eq!(c.tracks.len(), 1);
    let t = &c.tracks[0];
    assert_eq!(t.identifier, TrackId::Instrument(Instrument::Piano));
    assert_eq!(t.events.len(), 3);
    assert_eq!(t.rests.len(), 1);
    assert_eq!(t.events[1].pitch, Pitch::new(4, 2));
    assert_eq!(t.events[1].start, Duration::from_beats_with_ts(Beats::from_integer(1), ts));
    assert_eq!(t.rests[0].start, Duration::from_beats_with_ts(Beats::from_integer(2), ts));
    assert_eq!(t.events[2].start, Duration::measures_with_ts(1, ts));
    assert_eq!(t.events[2].volume, Volume(10));
    assert_eq!(c.get_duration(), Duration::from_beats_with_ts(Beats::from_integer(5), ts));
}

#[test]
fn compose_change_instrument_starts_new_voice() {
    let ts = TimeSignature::common();
    let ms = MusicString(vec![
        sound(1, ts),
        MusicPrimitive::Simple(Symbol::T(Terminal::Meta(MetaControl::ChangeInstrument(Instrument::Bass)))),
        sound(1, ts),
    ]);
    let c = ms.compose_v2(ts, piano()).unwrap();
    assert_eq!(c.tracks.len(), 2);
    assert_eq!(c.tracks[0].instrument, Instrument::Piano);
    assert_eq!(c.tracks[1].instrument, Instrument::Bass);
    assert_eq!(c.tracks[1].events[0].start, Duration::from_beats_with_ts(Beats::from_integer(1), ts));
}

#[test]
fn compose_transpose_and_repeat() {
    let ts = TimeSignature::common();
    let ms = MusicString(vec![
        MusicPrimitive::Transform {
            transform: MusicTransform::Transpose { semitones: 12 },
            content: MusicString(vec![sound(1, ts)]),
        },
        MusicPrimitive::Transform {
            transform: MusicTransform::Repeat { num: 3 },
            content: MusicString(vec![sound(1, ts)]),
        },
    ]);
    let c = ms.compose_v2(ts, piano()).unwrap();
    // each transform adds a voice first; the current voice only rests, and is written after
    // the first transform's voice
    assert_eq!(c.tracks.len(), 3);
    assert_eq!(c.tracks[0].events[0].pitch, Pitch::new(5, 0));
    assert_eq!(c.tracks[1].events.len(), 0);
    assert_eq!(c.tracks[1].rests.len(), 2);
    let repeated = &c.tracks[2];
    assert_eq!(repeated.identifier, TrackId::Custom(2));
    assert_eq!(repeated.events.len(), 3);
    assert_eq!(repeated.events[2].start, Duration::from_beats_with_ts(Beats::from_integer(3), ts));
    assert_eq!(c.get_end(), Some(Duration::measures_with_ts(1, ts)));
}

#[test]
fn track_sorting_and_windows() {
    let ts = TimeSignature::common();
    let ev = |b: u32, p: u8| Event {
        start: Duration::from_beats_with_ts(Beats::from_integer(b), ts),
        duration: Duration::from_beats_with_ts(Beats::from_integer(1), ts),
        volume: Volume(50),
        pitch: Pitch::new(4, p),
    };
    let t = Track {
        identifier: TrackId::Custom(1),
        instrument: Instrument::Piano,
        events: vec![ev(2, 0), ev(0, 1), ev(1, 2), ev(3, 3)],
        rests: vec![],
    };
    assert!(t.validate_contiguous());
    let between = t.get_events_starting_between(
        Duration::from_beats_with_ts(Beats::from_integer(0), ts),
        Duration::from_beats_with_ts(Beats::from_integer(2), ts),
        true,
    );
    assert_eq!(between, vec![ev(1, 2), ev(2, 0)]);
    let gap = Track { events: vec![ev(0, 1), ev(2, 0)], ..t.clone() };
    assert!(!gap.validate_contiguous());
    let joined = gap.clone().add(Track { events: vec![ev(1, 5)], ..t.clone() });
    assert_eq!(joined.events, vec![ev(0, 1), ev(1, 5), ev(2, 0)]);
}

#[test]
fn track_shift_and_rests_to_last_measure() {
    let ts = TimeSignature::common();
    let mut c = comp_template(vec![Event {
        start: Duration::zero(ts),
        duration: Duration::from_beats_with_ts(Beats::from_integer(3), ts),
        volume: Volume(100),
        pitch: Pitch::new(4, 0),
    }]);
    c.shift_by(Duration::from_beats_with_ts(Beats::from_integer(2), ts), true);
    assert_eq!(c.tracks[0].rests.len(), 1);
    assert_eq!(c.tracks[0].rests[0].duration, Duration::from_beats_with_ts(Beats::from_integer(2), ts));
    assert_eq!(c.get_end(), Some(Duration::from_beats_with_ts(Beats::from_integer(5), ts)));
    assert_eq!(c.add_rests_to_last_measure(), Some(()));
    assert_eq!(c.get_end(), Some(Duration::measures_with_ts(2, ts)));
    let mut empty = Composition { tracks: vec![], time_signature: ts };
    assert_eq!(empty.add_rests_to_last_measure(), None);
    assert_eq!(Ratio::new(2, 4), Ratio::new(1, 2));
}

fn note(beats: u32, octave: i8, num: u8, ts: TimeSignature) -> MusicPrimitive {
    MusicPrimitive::Simple(Symbol::T(Terminal::AbsoluteSound {
        duration: Duration::from_beats_with_ts(Beats::from_integer(beats), ts),
        note: TerminalNote::Note { pitch: Pitch::new(octave, num) },
    }))
}

#[test]
fn compose_by_instrument_sequence() {
    let ts = TimeSignature::common();
    let ms = MusicString(vec![
        note(1, 4, 0, ts),
        MusicPrimitive::Simple(Symbol::T(Terminal::AbsoluteSound {
            duration: Duration::from_beats_with_ts(Beats::from_integer(1), ts),
            note: TerminalNote::Rest,
        })),
        MusicPrimitive::Simple(Symbol::T(Terminal::Meta(MetaControl::ChangeVolume(Volume(70))))),
        note(2, 4, 4, ts),
    ]);
    let c = ms.compose_v1(ts, None).unwrap();
    assert_eq!(c.tracks.len(), 1);
    let t = &c.tracks[0];
    assert_eq!(t.identifier, TrackId::Instrument(Instrument::SineWave));
    assert_eq!(t.events.len(), 2);
    assert_eq!(t.rests.len(), 1);
    assert_eq!(t.events[0].volume, Volume(50));
    assert_eq!(t.events[1].volume, Volume(70));
    assert_eq!(t.events[1].start, Duration::from_beats_with_ts(Beats::from_integer(2), ts));
    assert_eq!(t.rests[0].volume, Volume(0));
    assert_eq!(c.get_duration(), Duration::measures_with_ts(1, ts));
}

#[test]
fn compose_by_instrument_joins_same_instrument() {
    let ts = TimeSignature::common();
    let ms = MusicString(vec![
        note(1, 4, 0, ts),
        MusicPrimitive::Simple(Symbol::T(Terminal::Meta(MetaControl::ChangeInstrument(Instrument::Bass)))),
        note(1, 2, 0, ts),
        MusicPrimitive::Simple(Symbol::T(Terminal::Meta(MetaControl::ChangeInstrument(Instrument::Piano)))),
        note(1, 4, 2, ts),
    ]);
    let c = ms.compose_v1(ts, Some(Instrument::Piano)).unwrap();
    assert_eq!(c.tracks.len(), 2);
    assert_eq!(c.tracks[0].instrument, Instrument::Piano);
    assert_eq!(c.tracks[0].events.len(), 2);
    assert_eq!(c.tracks[0].events[1].start, Duration::from_beats_with_ts(Beats::from_integer(2), ts));
    assert_eq!(c.tracks[1].instrument, Instrument::Bass);
    assert_eq!(c.tracks[1].events[0].pitch, Pitch::new(2, 0));
}

#[test]
fn compose_by_instrument_split_and_repeat() {
    let ts = TimeSignature::common();
    let ms = MusicString(vec![
        MusicPrimitive::Split {
            branches: vec![MusicString(vec![note(2, 4, 0, ts)]), MusicString(vec![note(2, 4, 4, ts)])],
        },
        MusicPrimitive::Transform {
            transform: MusicTransform::Repeat { num: 2 },
            content: MusicString(vec![note(1, 4, 7, ts)]),
        },
        MusicPrimitive::Transform {
            transform: MusicTransform::Transpose { semitones: 12 },
            content: MusicString(vec![note(1, 4, 0, ts)]),
        },
    ]);
    let c = ms.compose_v1(ts, None).unwrap();
    // every line was played on one instrument, so there is one track, kept sorted
    assert_eq!(c.tracks.len(), 1);
    let t = &c.tracks[0];
    assert_eq!(t.events.len(), 5);
    assert_eq!(t.events[2].start, Duration::from_beats_with_ts(Beats::from_integer(2), ts));
    assert_eq!(t.events[3].start, Duration::from_beats_with_ts(Beats::from_integer(3), ts));
    assert_eq!(t.events[4].pitch, Pitch::new(5, 0));
    assert_eq!(t.events[4].start, Duration::measures_with_ts(1, ts));
    assert_eq!(c.get_end(), Some(Duration::from_beats_with_ts(Beats::from_integer(5), ts)));
}

#[test]
fn compose_by_instrument_mismatched_split() {
    let ts = TimeSignature::common();
    let ms = MusicString(vec![MusicPrimitive::Split {
        branches: vec![MusicString(vec![note(1, 4, 0, ts)]), MusicString(vec![note(3, 4, 0, ts)])],
    }]);
    match ms.compose_v1(ts, None) {
        Err(ComposeError::MismatchedLengths(msg)) => {
            assert!(msg.starts_with("Not all split tracks have the same duration"))
        }
        Ok(_) => panic!("expected an error"),
    }
}

#[test]
fn split_after_a_note_rests_the_current_voice() {
    let ts = TimeSignature::common();
    let ms = MusicString(vec![
        sound(1, ts),
        MusicPrimitive::Split {
            branches: vec![MusicString(vec![sound(2, ts)]), MusicString(vec![sound(2, ts)])],
        },
        sound(1, ts),
    ]);
    let c = ms.compose_v2(ts, piano()).unwrap();
    assert_eq!(c.tracks.len(), 3);
    let voice = &c.tracks[0];
    assert_eq!(voice.events.len(), 2);
    assert_eq!(voice.events[0].start, Duration::from_beats_with_ts(Beats::from_integer(0), ts));
    // A split's branches are moved to the current time with a leading rest, so the split
    // lasts from the start of time to the end of its branches.
    assert_eq!(voice.events[1].start, Duration::from_beats_with_ts(Beats::from_integer(4), ts));
    assert_eq!(voice.rests.len(), 1);
    assert_eq!(voice.rests[0].start, Duration::from_beats_with_ts(Beats::from_integer(1), ts));
    assert_eq!(voice.rests[0].duration, Duration::from_beats_with_ts(Beats::from_integer(3), ts));
    for t in &c.tracks[1..] {
        assert_eq!(t.events.len(), 1);
        assert_eq!(t.events[0].start, Duration::from_beats_with_ts(Beats::from_integer(1), ts));
    }
}

#[test]
fn err_first_gives_all_values_or_the_first_error() {
    let ok: Vec<Result<u32, String>> = vec![Ok(1), Ok(2), Ok(3)];
    assert_eq!(err_first(ok), Ok(vec![1, 2, 3]));
    let bad: Vec<Result<u32, String>> = vec![Ok(1), Err("first".to_string()), Err("second".to_string())];
    assert_eq!(err_first(bad), Err("first".to_string()));
    let none: Vec<Result<u32, String>> = vec![];
    assert_eq!(err_first(none), Ok(vec![]));
}

#[test]
fn instrument_change_then_transform_keeps_voices_apart() {
    let ts = TimeSignature::common();
    let ms = MusicString(vec![
        MusicPrimitive::Simple(Symbol::T(Terminal::Meta(MetaControl::ChangeInstrument(Instrument::Piano)))),
        MusicPrimitive::Transform {
            transform: MusicTransform::Transpose { semitones: 1 },
            content: MusicString(vec![sound(1, ts)]),
        },
    ]);
    let c = ms.compose_v2(ts, piano()).unwrap();
    assert_eq!(c.tracks.len(), 2);
    let with_notes: Vec<&Track> = c.tracks.iter().filter(|t| t.events.len() > 0).collect();
    let with_rests: Vec<&Track> = c.tracks.iter().filter(|t| t.rests.len() > 0).collect();
    assert_eq!(with_notes.len(), 1);
    assert_eq!(with_rests.len(), 1);
    assert_eq!(with_notes[0].rests.len(), 0);
    assert_eq!(with_rests[0].events.len(), 0);
}

#[test]
fn composed_voice_items_follow_one_another() {
    let ts = TimeSignature::common();
    let beats = |b: u32| Duration::from_beats_with_ts(Beats::from_integer(b), ts);
    let ms = MusicString(vec![
        sound(1, ts),
        MusicPrimitive::Split {
            branches: vec![MusicString(vec![sound(2, ts)]), MusicString(vec![sound(1, ts), sound(1, ts)])],
        },
        sound(1, ts),
    ]);
    let c = ms.compose_v2(ts, piano()).unwrap();
    let voice = c.tracks.iter().find(|t| t.identifier == TrackId::Instrument(Instrument::Piano)).unwrap();
    // a note, a rest while the split plays, then a note: each starts where the one before ends
    let mut items: Vec<Event> = voice.events.clone();
    items.extend(voice.rests.iter().cloned());
    items.sort_by_key(|e| e.start.value.0.numer() * 1000 / e.start.value.0.denom());
    assert_eq!(items.len(), 3);
    assert_eq!(items[0].start, beats(0));
    for k in 1..items.len() {
        assert_eq!(items[k].start, items[k - 1].start.plus(items[k - 1].duration));
    }
    assert_eq!(voice.rests.len(), 1);
    assert_eq!(voice.rests[0].start, beats(1));
    // a split at a later time lasts from the start of time: its branches are moved there
    // behind a rest as long as the time already played
    assert_eq!(voice.rests[0].duration, beats(3));
    assert_eq!(voice.events[1].start, beats(4));
}
