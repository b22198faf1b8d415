use music_grammar::music_primitives::{Duration, NoteValue, Pitch, PitchClass, TimeSignature};
use music_grammar::ratio::Ratio;

#[test]
fn composition_test_transpose_1() {
    let mut pitch = Pitch::new(4, 0); // C4
    pitch.transpose(2);
    assert_eq!(pitch, Pitch::new(4, 2)); // D4
}

#[test]
fn composition_test_transpose_2() {
    let mut pitch = Pitch::new(4, 0); // C4
    pitch.transpose(-1);
    assert_eq!(pitch, Pitch::new(3, 11)); // B3
}

#[test]
fn composition_test_transpose_3() {
    let mut pitch = Pitch::new(4, 2); // D4
    pitch.transpose(-7);
    assert_eq!(pitch, Pitch::new(3, 7)); // G3
}

#[test]
fn composition_test_transpose_4() {
    let mut pitch = Pitch::new(4, 0); // C4
    pitch.transpose(12);
    assert_eq!(pitch, Pitch::new(5, 0)); // C5
}

#[test]
fn lib_test_transpose_1() {
    let mut pitch = Pitch::new(4, 0u8); // C4
    pitch.transpose(2);
    assert_eq!(pitch, Pitch::new(4, 2u8)); // D4
}

#[test]
fn lib_test_transpose_2() {
    let mut pitch = Pitch::new(4, 0u8); // C4
    pitch.transpose(-1);
    assert_eq!(pitch, Pitch::new(3, 11u8)); // B3
}

#[test]
fn lib_test_transpose_3() {
    let mut pitch = Pitch::new(4, 2u8); // D4
    pitch.transpose(-7);
    assert_eq!(pitch, Pitch::new(3, 7u8)); // G3
}

#[test]
fn lib_test_transpose_4() {
    let mut pitch = Pitch::new(4, 0u8); // C4
    pitch.transpose(12);
    assert_eq!(pitch, Pitch::new(5, 0u8)); // C5
}

#[test]
fn test() {
    assert_eq!((-1i8).rem_euclid(12), 11);
}

#[test]
fn test_music_time() {
    let time_signature = TimeSignature::common();
    let mt1 = Duration::measures_and_beats_with_ts(0, Ratio::new(0, 1), time_signature);
    let mt2 = Duration::measures_and_beats_with_ts(0, Ratio::new(1191, 23819), time_signature);
    assert!(mt1.less_than(&mt2));
    assert!(!mt2.less_than(&mt1) && !mt2.at_most(&mt1));
}

#[test]
fn transpose_negative_wraps_octave() {
    let mut pitch = Pitch::new(0, 0u8);
    pitch.transpose(-13);
    assert_eq!(pitch, Pitch::new(-2, 11u8));
    assert_eq!(pitch.octave(), -2);
    assert_eq!(pitch.note_num(), 11);
}

#[test]
fn pitch_new_reduces_note_number() {
    assert_eq!(Pitch::new(4, 14u32), Pitch::new(4, 2u8));
    assert_eq!(Pitch::new(4, -1i32), Pitch::new(4, 11u8));
    assert_eq!(Pitch::new(4, PitchClass::Bb), Pitch::new(4, 10u8));
    assert_eq!(Pitch::middle_c(), Pitch::new(4, 0u8));
}

#[test]
fn pitch_class_sharp_and_flat() {
    assert_eq!(PitchClass::B.sharp().to_note_num(), 0);
    assert_eq!(PitchClass::C.flat().to_note_num(), 11);
}

#[test]
fn duration_measures_and_beats() {
    let ts = TimeSignature::common();
    let d = Duration::measures_and_beats_with_ts(2, Ratio::new(3, 2), ts);
    assert_eq!(d.value, NoteValue::new(19, 8));
    assert_eq!(d.get_beats(), Ratio::new(19, 2));
    assert_eq!(d.get_whole_measures(), 2);
    assert_eq!(d.get_rem_beats(), Ratio::new(3, 2));
    assert_eq!(d.get_measures(), Ratio::new(19, 8));
}

#[test]
fn duration_arithmetic() {
    let ts = TimeSignature::waltz();
    let a = Duration::from_beats_with_ts(Ratio::new(3, 1), ts);
    let b = Duration::from_beats_with_ts(Ratio::new(1, 2), ts);
    assert_eq!(a.value, NoteValue::new(3, 4));
    assert_eq!(a.plus(b).value, NoteValue::new(7, 8));
    assert_eq!(a.minus(b).value, NoteValue::new(5, 8));
    assert_eq!(a.times_integer(2).value, NoteValue::new(3, 2));
    assert_eq!(a.times(Ratio::new(1, 3)).value, NoteValue::new(1, 4));
    assert!(Duration::zero(ts).is_zero());
    assert_eq!(Duration::measures_with_ts(1, ts), a);
}

#[test]
fn letter_names_start_at_c() {
    assert_eq!(Pitch::middle_c().letter_name(), "C");
    assert_eq!(Pitch::new(4, 2).letter_name(), "D");
    assert_eq!(Pitch::new(4, 9).letter_name(), "A");
    assert_eq!(Pitch::new(4, 6).letter_name(), "F#");
    assert_eq!(Pitch::new(3, 10).letter_name(), "Bb");
    assert_eq!(Pitch::new(3, 3).letter_name(), "Eb");
}
