use music_grammar::chord_grammar::{generate_all_chords, generate_chord_nts, generate_harmony_chooser};
use music_grammar::music_primitives::PitchClass;
use music_grammar::pipeline::grammar_from_text;

#[test]
fn test_generate_chord_nts() {
    let prefix = "#";
    let preamble = generate_harmony_chooser("harmony_chooser", prefix);
    let nts = generate_chord_nts(PitchClass::C, prefix, "<1/2>");

    let full_grammar = format!("start harmony_chooser\n{}\n{}", preamble, nts.join("\n"));
    let grammar = grammar_from_text(&full_grammar).unwrap();
    assert_eq!(grammar.productions.len(), 2 * 98);
}

#[test]
fn all_chords_in_region_order() {
    let chords = generate_all_chords();
    assert_eq!(chords.len(), 98);
    assert_eq!(chords[0], "I/I");
    assert_eq!(chords[6], "vii_o/I");
    assert_eq!(chords[7], "I/II");
    assert_eq!(chords[49], "i/i");
    assert_eq!(chords[51], "III/i");
    assert_eq!(chords[97], "VII/vii");
}

#[test]
fn harmony_chooser_lines() {
    let text = generate_harmony_chooser("H", "#");
    let lines: Vec<&str> = text.split('\n').collect();
    assert_eq!(lines.len(), 98);
    assert_eq!(lines[0], "H = #I/I");
    assert_eq!(lines[97], "H = #VII/vii");
}

#[test]
fn chord_nt_lines() {
    let nts = generate_chord_nts(PitchClass::C, "#", "<1/2>");
    assert_eq!(nts.len(), 98);
    assert_eq!(nts[0], "#I/I = { :2C<1/2> | :3E<1/2> | :3G<1/2> }");
    let in_d = generate_chord_nts(PitchClass::D, "#", "");
    assert_eq!(in_d[0], "#I/I = { :2D | :3F# | :3A }");
}
