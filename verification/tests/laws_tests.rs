use music_grammar::composition::{Composition, Event, Instrument, Track, TrackId, Volume};
use music_grammar::music_primitives::{Beats, Duration, Pitch, TimeSignature};
use music_grammar::pitch_class_space::PitchClassSpace;
use music_grammar::ratio::Ratio;

fn beat(n: u32, ts: TimeSignature) -> Duration {
    Duration::from_beats_with_ts(Beats::from_integer(n), ts)
}

fn note_at(start: Duration, duration: Duration, octave: i8, num: u8) -> Event {
    Event { start, duration, volume: Volume(64), pitch: Pitch::new(octave, num) }
}

#[test]
fn law_pitch_transpose_round_trip() {
    let p = Pitch::new(4, 11u8);
    let up = p.transposed(5);
    assert_eq!(up, Pitch::new(5, 4u8));
    assert_eq!(up.transposed(-5), p);
    let down = p.transposed(-30);
    assert_eq!(down, Pitch::new(2, 5u8));
    assert_eq!(down.transposed(30), p);
}

#[test]
fn law_composition_transpose_round_trip() {
    let ts = TimeSignature::common();
    let start = Composition {
        tracks: vec![Track {
            identifier: TrackId::Custom(1),
            instrument: Instrument::Piano,
            events: vec![note_at(beat(0, ts), beat(1, ts), 4, 0), note_at(beat(1, ts), beat(1, ts), 3, 9)],
            rests: vec![],
        }],
        time_signature: ts,
    };
    let mut c = start.clone();
    c.transpose(7);
    assert_eq!(c.tracks[0].events[1].pitch, Pitch::new(4, 4u8));
    c.transpose(-7);
    assert_eq!(c, start);
}

#[test]
fn law_distance_to_itself_is_zero() {
    let c = PitchClassSpace::c_maj();
    assert_eq!(c.total_distance(&c), 0);
    let v: PitchClassSpace = "V/ii".parse().unwrap();
    assert_eq!(v.total_distance(&v), 0);
}

#[test]
fn law_track_sum_in_order() {
    let ts = TimeSignature::common();
    let a = Track {
        identifier: TrackId::Instrument(Instrument::Piano),
        instrument: Instrument::Piano,
        events: vec![note_at(beat(3, ts), beat(1, ts), 4, 0), note_at(beat(0, ts), beat(1, ts), 4, 2)],
        rests: vec![],
    };
    let b = Track {
        identifier: TrackId::Instrument(Instrument::Piano),
        instrument: Instrument::Piano,
        events: vec![note_at(beat(1, ts), beat(2, ts), 4, 4), note_at(beat(0, ts), beat(1, ts), 3, 7)],
        rests: vec![],
    };
    let s = a.add(b);
    assert_eq!(s.events.len(), 4);
    assert_eq!(s.events[0].pitch, Pitch::new(3, 7u8));
    assert_eq!(s.events[1].pitch, Pitch::new(4, 2u8));
    assert_eq!(s.events[2].start, beat(1, ts));
    assert_eq!(s.events[3].start, beat(3, ts));
}

#[test]
fn law_duration_plus_minus_exact() {
    let ts = TimeSignature::common();
    let a = Duration::from_beats_with_ts(Ratio::new(5, 3), ts);
    let b = Duration::from_beats_with_ts(Ratio::new(7, 4), ts);
    assert_eq!(a.plus(b).minus(b), a);
    assert_eq!(a.plus(b).minus(a), b);
    assert_eq!(a.plus(b.minus(a)), b);
}

#[test]
fn law_measures_and_beats_recompose() {
    let ts = TimeSignature::waltz();
    let d = Duration::from_beats_with_ts(Ratio::new(23, 2), ts);
    assert_eq!(d.get_whole_measures(), 3);
    assert_eq!(d.get_rem_beats(), Ratio::new(5, 2));
    let back = Duration::measures_and_beats_with_ts(d.get_whole_measures(), d.get_rem_beats(), ts);
    assert_eq!(back, d);
}

#[test]
fn law_padding_ends_every_track_at_the_last_measure() {
    let ts = TimeSignature::common();
    let mut c = Composition {
        tracks: vec![
            Track {
                identifier: TrackId::Custom(0),
                instrument: Instrument::Piano,
                events: vec![note_at(beat(0, ts), beat(5, ts), 4, 0)],
                rests: vec![],
            },
            Track {
                identifier: TrackId::Custom(1),
                instrument: Instrument::Bass,
                events: vec![note_at(beat(0, ts), beat(2, ts), 2, 0)],
                rests: vec![],
            },
        ],
        time_signature: ts,
    };
    assert_eq!(c.add_rests_to_last_measure(), Some(()));
    let whole = Duration::measures_with_ts(2, ts);
    assert_eq!(c.tracks[0].get_end(ts), Some(whole));
    assert_eq!(c.tracks[1].get_end(ts), Some(whole));
    assert_eq!(c.tracks[1].rests[0].start, beat(2, ts));
}
