use vstd::prelude::*;
use crate::music_primitives::{Pitch, PitchClass, letter_name_spec, pitch_class_num};
use crate::pitch_class_space::{
    PitchClassSpace,
    SpaceLevel,
    chord_pcs_upto,
    has_root,
    parse_pitch_class_space,
    parse_space_spec,
    root_of,
    rotate_spec,
    steps_of,
    steps_spec,
};
use crate::analysis::strings_seq;
use crate::text::{push_char, push_signed, push_str, signed_decimal};

verus! {

/// The Roman numerals of the seven major regions.
pub open spec fn major_region(i: int) -> Seq<char> {
    if i == 0 {
        "I"@
    } else if i == 1 {
        "II"@
    } else if i == 2 {
        "III"@
    } else if i == 3 {
        "IV"@
    } else if i == 4 {
        "V"@
    } else if i == 5 {
        "VI"@
    } else {
        "VII"@
    }
}

/// The chords of a major region: I ii iii IV V vi vii_o.
pub open spec fn major_chord(i: int) -> Seq<char> {
    if i == 0 {
        "I"@
    } else if i == 1 {
        "ii"@
    } else if i == 2 {
        "iii"@
    } else if i == 3 {
        "IV"@
    } else if i == 4 {
        "V"@
    } else if i == 5 {
        "vi"@
    } else {
        "vii_o"@
    }
}

/// The Roman numerals of the seven minor regions.
pub open spec fn minor_region(i: int) -> Seq<char> {
    if i == 0 {
        "i"@
    } else if i == 1 {
        "ii"@
    } else if i == 2 {
        "iii"@
    } else if i == 3 {
        "iv"@
    } else if i == 4 {
        "v"@
    } else if i == 5 {
        "vi"@
    } else {
        "vii"@
    }
}

/// The chords of a minor region: i ii_o III iv v VI VII.
pub open spec fn minor_chord(i: int) -> Seq<char> {
    if i == 0 {
        "i"@
    } else if i == 1 {
        "ii_o"@
    } else if i == 2 {
        "III"@
    } else if i == 3 {
        "iv"@
    } else if i == 4 {
        "v"@
    } else if i == 5 {
        "VI"@
    } else {
        "VII"@
    }
}

/// Every chord of every region, "chord/region": the major regions first, each region with
/// its seven chords in order, then the minor regions.
pub open spec fn all_chords_spec() -> Seq<Seq<char>> {
    Seq::new(98, |k: int| if k < 49 {
        major_chord(k % 7) + "/"@ + major_region(k / 7)
    } else {
        minor_chord((k - 49) % 7) + "/"@ + minor_region((k - 49) / 7)
    })
}

fn major_region_str(i: usize) -> (s: &'static str)
    ensures
        s@ == major_region(i as int),
{
    if i == 0 {
        "I"
    } else if i == 1 {
        "II"
    } else if i == 2 {
        "III"
    } else if i == 3 {
        "IV"
    } else if i == 4 {
        "V"
    } else if i == 5 {
        "VI"
    } else {
        "VII"
    }
}

fn major_chord_str(i: usize) -> (s: &'static str)
    ensures
        s@ == major_chord(i as int),
{
    if i == 0 {
        "I"
    } else if i == 1 {
        "ii"
    } else if i == 2 {
        "iii"
    } else if i == 3 {
        "IV"
    } else if i == 4 {
        "V"
    } else if i == 5 {
        "vi"
    } else {
        "vii_o"
    }
}

fn minor_region_str(i: usize) -> (s: &'static str)
    ensures
        s@ == minor_region(i as int),
{
    if i == 0 {
        "i"
    } else if i == 1 {
        "ii"
    } else if i == 2 {
        "iii"
    } else if i == 3 {
        "iv"
    } else if i == 4 {
        "v"
    } else if i == 5 {
        "vi"
    } else {
        "vii"
    }
}

fn minor_chord_str(i: usize) -> (s: &'static str)
    ensures
        s@ == minor_chord(i as int),
{
    if i == 0 {
        "i"
    } else if i == 1 {
        "ii_o"
    } else if i == 2 {
        "III"
    } else if i == 3 {
        "iv"
    } else if i == 4 {
        "v"
    } else if i == 5 {
        "VI"
    } else {
        "VII"
    }
}

/// Every chord of every region, "chord/region": the seven major regions first, each with
/// the chords I ii iii IV V vi vii_o, then the seven minor regions, each with the chords
/// i ii_o III iv v VI VII.
pub fn generate_all_chords() -> (r: Vec<String>)
    ensures
        strings_seq(r@) == all_chords_spec(),
{
    let mut chords: Vec<String> = Vec::new();
    let mut k: usize = 0;
    while k < 98
        invariant
            k <= 98,
            strings_seq(chords@) == all_chords_spec().take(k as int),
        decreases 98 - k,
    {
        let mut s = String::new();
        if k < 49 {
            push_str(&mut s, major_chord_str(k % 7));
            push_char(&mut s, '/');
            push_str(&mut s, major_region_str(k / 7));
        } else {
            push_str(&mut s, minor_chord_str((k - 49) % 7));
            push_char(&mut s, '/');
            push_str(&mut s, minor_region_str((k - 49) / 7));
        }
        proof {
            reveal_strlit("/");
        }
        assert(s@ =~= all_chords_spec()[k as int]);
        let ghost before = chords@;
        assert(strings_seq(before).len() == before.len());
        assert(before.len() == k);
        chords.push(s);
        assert(strings_seq(chords@) =~= all_chords_spec().take(k + 1)) by {
            assert(chords@ == before.push(s));
            assert forall|i: int| 0 <= i < k implies #[trigger] chords@[i]@ == all_chords_spec()[i] by {
                assert(chords@[i] == before[i]);
                assert(strings_seq(before)[i] == before[i]@);
            }
        }
        k = k + 1;
    }
    assert(all_chords_spec().take(98) =~= all_chords_spec());
    chords
}

/// Lines joined with line breaks between them.
pub open spec fn joined_lines(lines: Seq<Seq<char>>) -> Seq<char>
    decreases lines.len(),
{
    if lines.len() == 0 {
        Seq::empty()
    } else if lines.len() == 1 {
        lines[0]
    } else {
        joined_lines(lines.drop_last()) + seq!['\n'] + lines.last()
    }
}

/// One choice of the harmony chooser: "name = {prefix}{chord}".
pub open spec fn chooser_line(name: Seq<char>, prefix: Seq<char>, chord: Seq<char>) -> Seq<char> {
    name + " = "@ + prefix + chord
}

/// The productions that let the non-terminal `name` become any one chord, one a line.
pub open spec fn harmony_chooser_spec(name: Seq<char>, prefix: Seq<char>) -> Seq<char> {
    joined_lines(Seq::new(98, |k: int| chooser_line(name, prefix, all_chords_spec()[k])))
}

/// The productions that let the non-terminal `name` become any chord non-terminal (each
/// chord with `prefix` in front), one production a line.
pub fn generate_harmony_chooser(name: &str, prefix: &str) -> (r: String)
    ensures
        r@ == harmony_chooser_spec(name@, prefix@),
{
    let chords = generate_all_chords();
    let ghost lines = Seq::new(98, |k: int| chooser_line(name@, prefix@, all_chords_spec()[k]));
    let mut out = String::new();
    let mut k: usize = 0;
    proof {
        reveal_strlit(" = ");
    }
    while k < chords.len()
        invariant
            k <= chords@.len(),
            strings_seq(chords@) == all_chords_spec(),
            lines == Seq::new(98, |k: int| chooser_line(name@, prefix@, all_chords_spec()[k])),
            out@ == joined_lines(lines.take(k as int)),
        decreases chords@.len() - k,
    {
        assert(chords@.len() == 98) by {
            assert(strings_seq(chords@).len() == chords@.len());
        }
        let ghost before = out@;
        if k > 0 {
            push_char(&mut out, '\n');
        }
        push_str(&mut out, name);
        push_str(&mut out, " = ");
        push_str(&mut out, prefix);
        push_str(&mut out, chords[k].as_str());
        assert(chords@[k as int]@ == all_chords_spec()[k as int]) by {
            assert(strings_seq(chords@)[k as int] == chords@[k as int]@);
        }
        assert(lines.take(k + 1).drop_last() =~= lines.take(k as int));
        if k > 0 {
            assert(out@ =~= before + seq!['\n'] + lines[k as int]);
        } else {
            assert(lines.take(1) =~= seq![lines[0]]);
            assert(out@ =~= lines[0]);
        }
        k = k + 1;
    }
    assert(chords@.len() == 98) by {
        assert(strings_seq(chords@).len() == chords@.len());
    }
    assert(lines.take(98) =~= lines);
    out
}

/// The name of a pitch in the grammar's notation: its octave, then its letter name.
pub open spec fn note_name_spec(octave: int, note: int) -> Seq<char> {
    signed_decimal(octave) + letter_name_spec(note)
}

/// The pitch class space of a chord label, moved to the tone center `tone`.
pub open spec fn chord_space(chord: Seq<char>, tone: int) -> Seq<SpaceLevel> {
    match parse_space_spec(chord) {
        Ok(v) => rotate_spec(v, SpaceLevel::Chromatic, tone),
        Err(_) => Seq::empty(),
    }
}

/// The further branches of a chord's split: "| :{note}{duration} " for each pitch class, in
/// octave 3.
pub open spec fn others_text(pcs: Seq<usize>, duration: Seq<char>) -> Seq<char>
    decreases pcs.len(),
{
    if pcs.len() == 0 {
        Seq::empty()
    } else {
        others_text(pcs.drop_last(), duration) + "| :"@ + note_name_spec(3, pcs.last() as int % 12) + duration
            + " "@
    }
}

/// The production of a chord non-terminal: the chord played as a split, its root in octave
/// 2 and its other pitch classes in octave 3, each note lasting `duration`:
/// "{prefix}{chord} = { :{root}{duration} | :{note}{duration} ... }".
pub open spec fn chord_nt_line(chord: Seq<char>, tone: int, prefix: Seq<char>, duration: Seq<char>) -> Seq<char> {
    let v = chord_space(chord, tone);
    prefix + chord + " = { :"@ + note_name_spec(2, root_of(v) % 12) + duration + " "@ + others_text(
        chord_pcs_upto(v, 12),
        duration,
    ) + "}"@
}

/// Every chord label reads as a pitch class space that, moved to the tone center, has a
/// root.
pub open spec fn chords_readable(tone: int) -> bool {
    forall|k: int|
        0 <= k < 98 ==> parse_space_spec(#[trigger] all_chords_spec()[k]) is Ok && has_root(
            chord_space(all_chords_spec()[k], tone),
        )
}

fn push_note_name(s: &mut String, p: Pitch)
    ensures
        final(s)@ == old(s)@ + note_name_spec(p.spec_octave() as int, p.spec_note_num() as int),
{
    push_signed(s, p.octave() as i64);
    let letter = p.letter_name();
    push_str(s, letter.as_str());
    assert(s@ =~= old(s)@ + note_name_spec(p.spec_octave() as int, p.spec_note_num() as int));
}

fn chord_nt(chord: &String, tone: u8, prefix: &str, duration: &str) -> (r: String)
    requires
        tone < 12,
        parse_space_spec(chord@) is Ok,
        has_root(chord_space(chord@, tone as int)),
    ensures
        r@ == chord_nt_line(chord@, tone as int, prefix@, duration@),
{
    let mut pcs = match parse_pitch_class_space(chord.as_str()) {
        Ok(p) => p,
        Err(_) => {
            proof {
                assert(false);
            }
            return String::new();
        },
    };
    let ghost v0 = pcs.highest_levels@;
    assert(steps_spec(v0, SpaceLevel::Chromatic, 12) == steps_spec(v0, SpaceLevel::Chromatic, 11).push(11));
    assert(steps_of(v0, SpaceLevel::Chromatic).len() > 0);
    pcs.rotate_on_level(SpaceLevel::Chromatic, tone as isize);
    let ghost v = pcs.highest_levels@;
    assert(v == chord_space(chord@, tone as int));
    let root = Pitch::new(2, pcs.get_root());
    let others = pcs.get_non_root_chord_pcs();
    let mut s = String::new();
    proof {
        reveal_strlit(" = { :");
        reveal_strlit(" ");
        reveal_strlit("| :");
        reveal_strlit("}");
    }
    push_str(&mut s, prefix);
    push_str(&mut s, chord.as_str());
    push_str(&mut s, " = { :");
    push_note_name(&mut s, root);
    push_str(&mut s, duration);
    push_str(&mut s, " ");
    let ghost head = s@;
    assert(head =~= prefix@ + chord@ + " = { :"@ + note_name_spec(2, root_of(v) % 12) + duration@ + " "@);
    let mut j: usize = 0;
    while j < others.len()
        invariant
            j <= others@.len(),
            others@ == chord_pcs_upto(v, 12),
            s@ == head + others_text(others@.take(j as int), duration@),
        decreases others@.len() - j,
    {
        let p = Pitch::new(3, others[j]);
        push_str(&mut s, "| :");
        push_note_name(&mut s, p);
        push_str(&mut s, duration);
        push_str(&mut s, " ");
        assert(others@.take(j + 1).drop_last() =~= others@.take(j as int));
        j = j + 1;
    }
    assert(others@.take(j as int) =~= others@);
    push_str(&mut s, "}");
    s
}

/// The productions of all chord non-terminals, moved to the tone center `tone_center`: one
/// line per chord, in the order of `generate_all_chords`, each chord played as a split of
/// its root in octave 2 and its other notes in octave 3, every note lasting `duration`
/// (written as in the grammar, such as "<1/2>").
pub fn generate_chord_nts(tone_center: PitchClass, prefix: &str, duration: &str) -> (r: Vec<String>)
    requires
        chords_readable(pitch_class_num(tone_center)),
    ensures
        strings_seq(r@) == Seq::new(
            98,
            |k: int| chord_nt_line(all_chords_spec()[k], pitch_class_num(tone_center), prefix@, duration@),
        ),
{
    let chords = generate_all_chords();
    let tone = tone_center.to_note_num();
    let ghost want = Seq::new(
        98,
        |k: int| chord_nt_line(all_chords_spec()[k], pitch_class_num(tone_center), prefix@, duration@),
    );
    let mut out: Vec<String> = Vec::new();
    let mut k: usize = 0;
    assert(chords@.len() == 98) by {
        assert(strings_seq(chords@).len() == chords@.len());
    }
    while k < chords.len()
        invariant
            k <= chords@.len(),
            chords@.len() == 98,
            strings_seq(chords@) == all_chords_spec(),
            tone == pitch_class_num(tone_center),
            tone < 12,
            chords_readable(pitch_class_num(tone_center)),
            want == Seq::new(
                98,
                |k: int| chord_nt_line(all_chords_spec()[k], pitch_class_num(tone_center), prefix@, duration@),
            ),
            strings_seq(out@) == want.take(k as int),
        decreases chords@.len() - k,
    {
        assert(chords@[k as int]@ == all_chords_spec()[k as int]) by {
            assert(strings_seq(chords@)[k as int] == chords@[k as int]@);
        }
        assert(parse_space_spec(all_chords_spec()[k as int]) is Ok);
        let line = chord_nt(&chords[k], tone, prefix, duration);
        let ghost before = out@;
        assert(strings_seq(before).len() == before.len());
        out.push(line);
        assert(strings_seq(out@) =~= want.take(k + 1)) by {
            assert forall|i: int| 0 <= i < k implies #[trigger] out@[i]@ == want[i] by {
                assert(out@[i] == before[i]);
                assert(strings_seq(before)[i] == before[i]@);
            }
        }
        k = k + 1;
    }
    assert(want.take(98) =~= want);
    out
}

} // verus!
