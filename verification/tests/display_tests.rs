use music_grammar::cfg::{MetaControl, MusicPrimitive, MusicString, MusicTransform, NonTerminal, Symbol, Terminal, TerminalNote};
use music_grammar::composition::{Composition, Event, Instrument, TimeCompression, Track, TrackId, Volume};
use music_grammar::music_primitives::{Beats, Duration, Pitch, TimeSignature};
use music_grammar::ratio::{Ratio, SignedRatio};

#[test]
fn duration_text_forms() {
    let ts = TimeSignature::common();
    assert_eq!(Duration::measures_and_beats_with_ts(2, Ratio::new(3, 2), ts).to_string(), "2m+3/2");
    assert_eq!(Duration::measures_with_ts(1, ts).to_string(), "1m");
    assert_eq!(Duration::from_beats_with_ts(Ratio::new(3, 1), ts).to_string(), "3");
    assert_eq!(Duration::zero(ts).to_string(), "");
}

#[test]
fn transform_and_meta_text() {
    assert_eq!(MusicTransform::Transpose { semitones: -2 }.to_string(), "T-2");
    assert_eq!(MusicTransform::Repeat { num: 3 }.to_string(), "x3");
    assert_eq!(MusicTransform::Compression { factor: TimeCompression(SignedRatio::new(1, 2)) }.to_string(), ">>1/2");
    assert_eq!(TimeCompression(SignedRatio::new(-4, 2)).to_string(), "-2/1");
    assert_eq!(MetaControl::ChangeInstrument(Instrument::Piano).to_string(), "::i=Piano");
    assert_eq!(MetaControl::ChangeVolume(Volume(80)).to_string(), "::v=Volume(80)");
    assert_eq!(TrackId::Custom(12).to_string(), "Custom(12)");
    assert_eq!(TrackId::Instrument(Instrument::HiHatOpen).to_string(), "HiHatOpen");
}

#[test]
fn terminal_and_music_string_text() {
    let ts = TimeSignature::common();
    let quarter = Duration::from_beats_with_ts(Ratio::new(1, 1), ts);
    let note = Terminal::AbsoluteSound { duration: quarter, note: TerminalNote::Note { pitch: Pitch::new(4, 3u8) } };
    assert_eq!(note.to_string(), ":Eb<1>");
    let rest = Terminal::AbsoluteSound { duration: quarter, note: TerminalNote::Rest };
    assert_eq!(rest.to_string(), ":_<1>");
    assert_eq!(Terminal::MovePitch { semitones: 1 }.to_string(), "\u{2191}1");
    assert_eq!(Terminal::MovePitch { semitones: -1 }.to_string(), "\u{2193}-1");
    assert_eq!(Terminal::CurrentSound { duration: quarter }.to_string(), "\u{2669}<1>");
    let ms = MusicString(vec![
        MusicPrimitive::Simple(Symbol::NT(NonTerminal::Custom("A".to_string()))),
        MusicPrimitive::Split {
            branches: vec![
                MusicString(vec![MusicPrimitive::Simple(Symbol::T(rest))]),
                MusicString(vec![MusicPrimitive::Simple(Symbol::NT(NonTerminal::Custom("B".to_string())))]),
            ],
        },
        MusicPrimitive::Transform {
            transform: MusicTransform::Repeat { num: 2 },
            content: MusicString(vec![MusicPrimitive::Simple(Symbol::T(Terminal::Meta(MetaControl::ChangeVolume(Volume(5)))))]),
        },
    ]);
    assert_eq!(ms.to_string(), "A {:_<1>  | B } [x2][::v=Volume(5) ] ");
    assert_eq!(NonTerminal::Custom("Verse".to_string()).to_string(), "Verse");
}

#[test]
fn track_and_composition_pictures() {
    let ts = TimeSignature::common();
    let beat = |n: u32| Duration::from_beats_with_ts(Beats::from_integer(n), ts);
    let track = Track {
        identifier: TrackId::Custom(0),
        instrument: Instrument::Piano,
        events: vec![Event { start: beat(0), duration: beat(1), volume: Volume(80), pitch: Pitch::new(4, 0) }],
        rests: vec![Event { start: beat(1), duration: beat(1), volume: Volume(0), pitch: Pitch::new(0, 0) }],
    };
    assert_eq!(track.visualize(4, ts, beat(0), beat(2)), "[XX?-]");
    assert_eq!(track.visualize(0, ts, beat(0), beat(2)), "[]");
    let c = Composition { tracks: vec![track], time_signature: ts };
    assert_eq!(c.visualize(4), "   Custom(0) [XX?-]\n");
    let empty = Composition { tracks: vec![], time_signature: ts };
    assert_eq!(empty.visualize(4), "[No music in this composition]");
}
