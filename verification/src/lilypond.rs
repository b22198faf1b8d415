use vstd::prelude::*;
use vstd::string::StringExecFns;
use crate::ratio::{Ratio, diff_fits};
use crate::music_primitives::{
    Duration, Pitch, TimeSignature, beats_note_value, dur_lt, dur_minus, expand_denoms, expand_limit,
    is_pow2, unit_piece,
};
use crate::composition::{
    Composition, CompositionV, Event, Instrument, Track, TrackV, Volume, end_fits, event_end, instrument_name,
    minus_fits, seq_ends_fit, track_contiguous, zero_duration,
};
use crate::text::{push_char, push_decimal, push_str, decimal, str_to_chars};
use crate::scan_text::{trim_spec, skip_ws, skip_ws_back};
use crate::display::push_instrument;

verus! {

/// Configuration for LilyPond rendering.
#[derive(Debug, Clone)]
pub struct LilyPondConfig {
    /// LilyPond version string
    pub version: String,
    /// Default tempo in BPM
    pub tempo: Option<u32>,
    /// Title of the piece
    pub title: Option<String>,
    /// Composer name
    pub composer: Option<String>,
    /// Whether to write volumes as dynamics
    pub write_dynamics: bool,
    /// Maximum 2^(-n) for note duration denominators (this should be <= 0)
    pub min_neg_power: Option<i32>,
}

impl Default for LilyPondConfig {
    fn default() -> (c: Self)
        ensures
            c.version@ == "2.24.0"@,
            c.tempo == Some(120u32),
            c.title is None,
            c.composer is None,
            c.write_dynamics,
            c.min_neg_power is None,
    {
        LilyPondConfig {
            version: String::from_str("2.24.0"),
            tempo: Some(120),
            title: None,
            composer: None,
            write_dynamics: true,
            min_neg_power: None,
        }
    }
}

/// Renders musical compositions to LilyPond notation.
pub struct LilyPondRenderer {
    config: LilyPondConfig,
}

/// The letter of a pitch class in LilyPond: C, D, E, F, G, A, B with the black keys
/// spelled C#, Eb, F#, Ab, Bb.
pub open spec fn lily_letter(n: int) -> char {
    if n <= 1 {
        'c'
    } else if n == 2 {
        'd'
    } else if n <= 4 {
        'e'
    } else if n <= 6 {
        'f'
    } else if n == 7 {
        'g'
    } else if n <= 9 {
        'a'
    } else {
        'b'
    }
}

/// The accidental of a pitch class in LilyPond: "is" for a sharp, "es" for a flat.
pub open spec fn lily_accidental(n: int) -> Seq<char> {
    if n == 1 || n == 6 {
        seq!['i', 's']
    } else if n == 3 || n == 8 || n == 10 {
        seq!['e', 's']
    } else {
        Seq::empty()
    }
}

/// The octave marks of LilyPond's absolute mode: none for octave 3, one `'` for each octave
/// above it, one `,` for each octave below it.
pub open spec fn octave_marks(octave: int) -> Seq<char> {
    if octave >= 3 {
        Seq::new((octave - 3) as nat, |i: int| '\'')
    } else {
        Seq::new((3 - octave) as nat, |i: int| ',')
    }
}

/// A pitch in LilyPond notation: middle C (C4) is c', C3 is c.
pub open spec fn lily_pitch(p: Pitch) -> Seq<char> {
    seq![lily_letter(p.spec_note_num() as int)] + lily_accidental(p.spec_note_num() as int)
        + octave_marks(p.spec_octave() as int)
}

/// Each natural pitch class is written with its own letter and no accidental: C, D, E, F, G,
/// A and B (pitch classes 0, 2, 4, 5, 7, 9 and 11) are `c`, `d`, `e`, `f`, `g`, `a` and `b`, in
/// every octave; the sign after the letter, if any, is an octave mark.
pub proof fn lemma_natural_names(p: Pitch)
    ensures
        p.spec_note_num() == 0 ==> lily_pitch(p)[0] == 'c',
        p.spec_note_num() == 2 ==> lily_pitch(p)[0] == 'd',
        p.spec_note_num() == 4 ==> lily_pitch(p)[0] == 'e',
        p.spec_note_num() == 5 ==> lily_pitch(p)[0] == 'f',
        p.spec_note_num() == 7 ==> lily_pitch(p)[0] == 'g',
        p.spec_note_num() == 9 ==> lily_pitch(p)[0] == 'a',
        p.spec_note_num() == 11 ==> lily_pitch(p)[0] == 'b',
        (p.spec_note_num() == 0 || p.spec_note_num() == 2 || p.spec_note_num() == 4
            || p.spec_note_num() == 5 || p.spec_note_num() == 7 || p.spec_note_num() == 9
            || p.spec_note_num() == 11) ==> lily_pitch(p) == seq![lily_pitch(p)[0]] + octave_marks(
            p.spec_octave() as int,
        ),
{
    let n = p.spec_note_num() as int;
    assert(lily_accidental(n).len() == 0 ==> lily_pitch(p) =~= seq![lily_letter(n)] + octave_marks(
        p.spec_octave() as int,
    ));
}

/// A sharp is written as the natural below it with `is` (C sharp and F sharp), a flat as the
/// natural above it with `es` (E flat, A flat and B flat): `p` lies a semitone above `q` or
/// below it, in the same octave.
pub proof fn lemma_accidental_names(p: Pitch, q: Pitch)
    requires
        p.spec_octave() == q.spec_octave(),
    ensures
        (p.spec_note_num() == 1 || p.spec_note_num() == 6) && q.spec_note_num() == p.spec_note_num() - 1
            ==> lily_pitch(p)[0] == lily_pitch(q)[0] && lily_pitch(p).subrange(1, 3) == seq!['i', 's'],
        (p.spec_note_num() == 3 || p.spec_note_num() == 8 || p.spec_note_num() == 10)
            && q.spec_note_num() == p.spec_note_num() + 1 ==> lily_pitch(p)[0] == lily_pitch(q)[0]
            && lily_pitch(p).subrange(1, 3) == seq!['e', 's'],
{
    let n = p.spec_note_num() as int;
    let hp = seq![lily_letter(n)] + lily_accidental(n);
    assert(lily_pitch(p) =~= hp + octave_marks(p.spec_octave() as int));
    if lily_accidental(n).len() == 2 {
        assert(lily_pitch(p).subrange(1, 3) =~= lily_accidental(n));
    }
}

/// Two different pitch classes of one octave never get the same name.
pub proof fn lemma_pitch_names_distinct(p: Pitch, q: Pitch)
    requires
        p.spec_note_num() < 12,
        q.spec_note_num() < 12,
        p.spec_octave() == q.spec_octave(),
        p.spec_note_num() != q.spec_note_num(),
    ensures
        lily_pitch(p) != lily_pitch(q),
{
    let (a, b) = (p.spec_note_num() as int, q.spec_note_num() as int);
    let m = octave_marks(p.spec_octave() as int);
    let hp = seq![lily_letter(a)] + lily_accidental(a);
    let hq = seq![lily_letter(b)] + lily_accidental(b);
    assert(lily_pitch(p) =~= hp + m);
    assert(lily_pitch(q) =~= hq + m);
    if lily_pitch(p) == lily_pitch(q) {
        assert(hp.len() == hq.len());
        assert(hp =~= lily_pitch(p).take(hp.len() as int));
        assert(hq =~= lily_pitch(q).take(hq.len() as int));
        assert(hp[0] == hq[0]);
        assert(hp.len() > 1 ==> hp[1] == hq[1]);
        assert(false);
    }
}

/// The dynamics marking of a volume.
pub open spec fn lily_dynamics(v: int) -> Seq<char> {
    if v >= 90 {
        seq!['\\', 'f', 'f']
    } else if v >= 75 {
        seq!['\\', 'f']
    } else if v >= 60 {
        seq!['\\', 'm', 'f']
    } else if v >= 45 {
        seq!['\\', 'm', 'p']
    } else if v >= 30 {
        seq!['\\', 'p']
    } else {
        seq!['\\', 'p', 'p']
    }
}

/// `n` whole notes tied together: "1~1~...~1".
pub open spec fn tied_wholes(n: nat) -> Seq<char>
    decreases n,
{
    if n <= 1 {
        seq!['1']
    } else {
        tied_wholes((n - 1) as nat) + seq!['~', '1']
    }
}

/// A duration in LilyPond notation: the reciprocal of the note value where it is a simple
/// note, tied whole notes for whole multiples, "64" for no time, and otherwise the nearest
/// reciprocal (rounded half up) clamped to 1..128.
pub open spec fn lily_duration(n: nat, d: nat) -> Seq<char> {
    if n == 0 {
        seq!['6', '4']
    } else if n == 1 {
        decimal(d)
    } else if d == 1 {
        tied_wholes(n)
    } else {
        let r = (2 * d + n) / (2 * n);
        decimal(
            if r < 1 {
                1
            } else if r > 128 {
                128
            } else {
                r
            },
        )
    }
}

impl LilyPondRenderer {
    /// The configuration the renderer was made with.
    pub closed spec fn config_spec(&self) -> LilyPondConfig {
        self.config
    }

    pub fn new(config: LilyPondConfig) -> (r: Self)
        ensures
            r.config_spec() == config,
    {
        Self { config }
    }

    pub fn with_defaults() -> (r: Self)
        ensures
            r.config_spec().version@ == "2.24.0"@,
            r.config_spec().tempo == Some(120u32),
            r.config_spec().title is None,
            r.config_spec().composer is None,
            r.config_spec().write_dynamics,
            r.config_spec().min_neg_power is None,
    {
        Self::new(LilyPondConfig::default())
    }

    /// Convert a pitch to LilyPond notation: C3 is c, middle C (C4) is c'.
    pub fn pitch_to_lilypond(&self, pitch: Pitch) -> (s: String)
        ensures
            s@ == lily_pitch(pitch),
    {
        let (octave, note_num) = pitch.data();
        pitch.note_num_in_range();
        let mut s = String::new();
        let letter = if note_num <= 1 {
            'c'
        } else if note_num == 2 {
            'd'
        } else if note_num <= 4 {
            'e'
        } else if note_num <= 6 {
            'f'
        } else if note_num == 7 {
            'g'
        } else if note_num <= 9 {
            'a'
        } else {
            'b'
        };
        push_char(&mut s, letter);
        if note_num == 1 || note_num == 6 {
            push_char(&mut s, 'i');
            push_char(&mut s, 's');
        } else if note_num == 3 || note_num == 8 || note_num == 10 {
            push_char(&mut s, 'e');
            push_char(&mut s, 's');
        }
        let ghost head = s@;
        assert(head =~= seq![lily_letter(note_num as int)] + lily_accidental(note_num as int));
        let (count, mark): (i16, char) = if octave >= 3 {
            (octave as i16 - 3, '\'')
        } else {
            (3 - octave as i16, ',')
        };
        let mut i: i16 = 0;
        while i < count
            invariant
                0 <= i <= count,
                count == (if octave >= 3 { octave - 3 } else { 3 - octave }),
                mark == (if octave >= 3 { '\'' } else { ',' }),
                s@ == head + Seq::new(i as nat, |k: int| mark),
            decreases count - i,
        {
            push_char(&mut s, mark);
            i = i + 1;
            assert(s@ =~= head + Seq::new(i as nat, |k: int| mark));
        }
        assert(s@ =~= lily_pitch(pitch));
        s
    }

    /// Convert a duration to LilyPond notation: 4 for a quarter note, 2 for a half note.
    pub fn duration_to_lilypond(&self, duration: Duration) -> (s: String)
        ensures
            s@ == lily_duration(duration.value.0.n() as nat, duration.value.0.d() as nat),
    {
        let numer = duration.value.0.numer();
        let denom = duration.value.0.denom();
        let mut s = String::new();
        if numer == 0 {
            push_char(&mut s, '6');
            push_char(&mut s, '4');
            assert(s@ =~= seq!['6', '4']);
            return s;
        }
        if numer == 1 {
            push_decimal(&mut s, denom as u64);
            assert(s@ =~= decimal(denom as nat));
            return s;
        }
        if denom == 1 {
            push_char(&mut s, '1');
            let mut k: u32 = 1;
            assert(s@ =~= tied_wholes(1));
            while k < numer
                invariant
                    1 <= k <= numer,
                    s@ == tied_wholes(k as nat),
                decreases numer - k,
            {
                push_char(&mut s, '~');
                push_char(&mut s, '1');
                k = k + 1;
                assert(s@ =~= tied_wholes(k as nat));
            }
            return s;
        }
        let r: u64 = (2 * (denom as u64) + numer as u64) / (2 * numer as u64);
        let clamped: u64 = if r < 1 {
            1
        } else if r > 128 {
            128
        } else {
            r
        };
        push_decimal(&mut s, clamped);
        assert(s@ =~= lily_duration(numer as nat, denom as nat));
        s
    }

    /// Convert a volume to a LilyPond dynamics marking, from \pp to \ff.
    pub fn volume_to_lilypond_dynamics(&self, volume: Volume) -> (s: String)
        ensures
            s@ == lily_dynamics(volume.0 as int),
    {
        let vol = volume.0;
        let mut s = String::new();
        push_char(&mut s, '\\');
        if vol >= 90 {
            push_char(&mut s, 'f');
            push_char(&mut s, 'f');
        } else if vol >= 75 {
            push_char(&mut s, 'f');
        } else if vol >= 60 {
            push_char(&mut s, 'm');
            push_char(&mut s, 'f');
        } else if vol >= 45 {
            push_char(&mut s, 'm');
            push_char(&mut s, 'p');
        } else if vol >= 30 {
            push_char(&mut s, 'p');
        } else {
            push_char(&mut s, 'p');
            push_char(&mut s, 'p');
        }
        assert(s@ =~= lily_dynamics(vol as int));
        s
    }
}


// ----------------------------------------------------------------------------------------
// The score: what `LilyPondRenderer::render` writes.
// ----------------------------------------------------------------------------------------

/// The text of one piece of a binary expansion: the LilyPond length of `1/den`.
pub open spec fn piece_length(den: int) -> Seq<char> {
    lily_duration(Ratio::lowest(1, den).n() as nat, Ratio::lowest(1, den).d() as nat)
}

/// The first `k` pieces of a note, tied: the pitch and the length of each, with the dynamics
/// marking after the first when dynamics are written.
pub open spec fn note_text(cfg: LilyPondConfig, pitch: Pitch, vol: Volume, dens: Seq<int>, k: int) -> Seq<
    char,
>
    decreases k,
{
    if k <= 0 {
        Seq::empty()
    } else {
        note_text(cfg, pitch, vol, dens, k - 1) + (if k > 1 {
            seq!['~']
        } else {
            Seq::empty()
        }) + lily_pitch(pitch) + piece_length(dens[k - 1]) + (if cfg.write_dynamics && k == 1 {
            lily_dynamics(vol.0 as int)
        } else {
            Seq::empty()
        })
    }
}

/// The first `k` pieces of a rest, one rest after the other.
pub open spec fn rest_text(dens: Seq<int>, k: int) -> Seq<char>
    decreases k,
{
    if k <= 0 {
        Seq::empty()
    } else {
        rest_text(dens, k - 1) + (if k > 1 {
            seq![' ']
        } else {
            Seq::empty()
        }) + seq!['r'] + piece_length(dens[k - 1])
    }
}

/// A note (with the pitch and volume of `e`) or a rest lasting `d`, written as tied standard
/// notes or as rests one after the other; `None` when `d` cannot be written so (its
/// denominator is no power of two).
pub open spec fn piece_text(cfg: LilyPondConfig, e: Event, d: Duration, is_rest: bool) -> Option<Seq<char>> {
    if !is_pow2(d.value.0.d()) {
        None
    } else {
        let dens = expand_denoms(d.value.0, expand_limit(cfg.min_neg_power));
        if is_rest {
            Some(rest_text(dens, dens.len() as int))
        } else {
            Some(note_text(cfg, e.pitch, e.volume, dens, dens.len() as int))
        }
    }
}

/// The duration of `b` beats in `ts`.
pub open spec fn beats_dur(b: Ratio, ts: TimeSignature) -> Duration {
    Duration { value: beats_note_value(ts, b), time_signature: ts }
}

/// `m` copies of the duration `d`.
pub open spec fn repeat_dur(d: Duration, m: nat) -> Seq<Duration> {
    Seq::new(m, |i: int| d)
}

/// The whole measures in `r` beats before the last, shorter or equal, part: the pieces of a
/// duration after the first measure boundary are so many whole measures and a last part.
pub open spec fn full_measures(r: Ratio, measure: int) -> int {
    (r.n() - 1) / (r.d() * measure)
}

/// A note or rest of length `dur` that starts at `pos`, cut at the measure boundaries of `ts`:
/// itself when it ends within its measure; else the part up to the boundary, the whole
/// measures after it, and the rest. `None` when the arithmetic leaves `u32`.
pub open spec fn measure_pieces(dur: Duration, pos: Duration, ts: TimeSignature) -> Option<Seq<Duration>> {
    let dd = ts.1 as int;
    let nn = ts.0 as int;
    let pv = pos.value.0;
    let dv = dur.value.0;
    if nn == 0 || dd == 0 || pv.n() * dd > u32::MAX || dv.n() * dd > u32::MAX {
        None
    } else {
        let sb = Ratio::lowest(pv.n() * dd, pv.d());
        let eb = Ratio::lowest(dv.n() * dd, dv.d());
        let whole = Ratio::lowest(nn, 1);
        if sb.d() * nn > u32::MAX {
            None
        } else {
            let into = Ratio::lowest(sb.n() % (sb.d() * nn), sb.d());
            if !diff_fits(whole, into) {
                None
            } else {
                let until = Ratio::lowest(whole.n() * into.d() - into.n() * whole.d(), whole.d() * into.d());
                if eb.n() * until.d() <= until.n() * eb.d() {
                    Some(seq![dur])
                } else if !diff_fits(eb, until) || dd * until.d() > u32::MAX {
                    None
                } else {
                    let r = Ratio::lowest(eb.n() * until.d() - until.n() * eb.d(), eb.d() * until.d());
                    let m = full_measures(r, nn);
                    if r.n() == 0 || m * nn > u32::MAX {
                        None
                    } else {
                        let mn = Ratio::lowest(m * nn, 1);
                        if !diff_fits(r, mn) {
                            None
                        } else {
                            let last = Ratio::lowest(r.n() * mn.d() - mn.n() * r.d(), r.d() * mn.d());
                            if dd * last.d() > u32::MAX {
                                None
                            } else {
                                Some(
                                    seq![beats_dur(until, ts)] + repeat_dur(beats_dur(whole, ts), m as nat)
                                        + seq![beats_dur(last, ts)],
                                )
                            }
                        }
                    }
                }
            }
        }
    }
}

/// The first `k` pieces written one after the other: notes tied with `~`, rests apart.
pub open spec fn pieces_text(cfg: LilyPondConfig, e: Event, ps: Seq<Duration>, is_rest: bool, k: int) -> Option<
    Seq<char>,
>
    decreases k,
{
    if k <= 0 {
        Some(Seq::empty())
    } else {
        match (pieces_text(cfg, e, ps, is_rest, k - 1), piece_text(cfg, e, ps[k - 1], is_rest)) {
            (Some(a), Some(b)) => Some(
                if k == 1 {
                    b
                } else {
                    a + (if is_rest {
                        seq![' ']
                    } else {
                        seq!['~']
                    }) + b
                },
            ),
            _ => None,
        }
    }
}

/// A note or rest of length `dur` starting at `pos`, cut at measure boundaries and written.
pub open spec fn measured_text(
    cfg: LilyPondConfig,
    e: Event,
    dur: Duration,
    pos: Duration,
    ts: TimeSignature,
    is_rest: bool,
) -> Option<Seq<char>> {
    match measure_pieces(dur, pos, ts) {
        None => None,
        Some(ps) => pieces_text(cfg, e, ps, is_rest, ps.len() as int),
    }
}

/// `x` placed after the last item that does not start later: a stable sort by start.
pub open spec fn insert_item(s: Seq<(Event, bool)>, x: (Event, bool)) -> Seq<(Event, bool)>
    decreases s.len(),
{
    if s.len() == 0 {
        seq![x]
    } else if dur_lt(x.0.start, s.last().0.start) {
        insert_item(s.drop_last(), x).push(s.last())
    } else {
        s.push(x)
    }
}

/// The items sorted stably by start.
pub open spec fn sorted_items(s: Seq<(Event, bool)>) -> Seq<(Event, bool)>
    decreases s.len(),
{
    if s.len() == 0 {
        s
    } else {
        insert_item(sorted_items(s.drop_last()), s.last())
    }
}

/// The notes of a track marked `false`, then its rests marked `true`.
pub open spec fn track_items(t: TrackV) -> Seq<(Event, bool)> {
    t.events.map_values(|e: Event| (e, false)) + t.rests.map_values(|e: Event| (e, true))
}

/// The first `k` items written, each followed by a space, with a rest for any gap before an
/// item; and the time after them. `None` when some part cannot be written.
pub open spec fn music_from(cfg: LilyPondConfig, items: Seq<(Event, bool)>, k: int, ts: TimeSignature) -> Option<
    (Seq<char>, Duration),
>
    decreases k,
{
    if k <= 0 {
        Some((Seq::empty(), zero_duration(ts)))
    } else {
        match music_from(cfg, items, k - 1, ts) {
            None => None,
            Some((txt, cur)) => {
                let e = items[k - 1].0;
                let is_rest = items[k - 1].1;
                let gap = dur_lt(cur, e.start);
                let gap_text = if gap {
                    if minus_fits(e.start, cur) {
                        measured_text(cfg, e, dur_minus(e.start, cur), cur, ts, true)
                    } else {
                        None
                    }
                } else {
                    Some(Seq::empty())
                };
                let pos = if gap {
                    e.start
                } else {
                    cur
                };
                match (gap_text, measured_text(cfg, e, e.duration, pos, ts, is_rest)) {
                    (Some(g), Some(t)) => if end_fits(e) {
                        Some(
                            (
                                txt + (if gap {
                                    g + seq![' ']
                                } else {
                                    Seq::empty()
                                }) + t + seq![' '],
                                event_end(e),
                            ),
                        )
                    } else {
                        None
                    },
                    _ => None,
                }
            },
        }
    }
}

/// The staff of one track: its instrument, the time signature, and its music.
pub open spec fn staff_text(i: Instrument, ts: TimeSignature, music: Seq<char>) -> Seq<char> {
    "    \\new Staff {\n      \\set Staff.instrumentName = \""@ + instrument_name(i) + "\"\n      \\time "@
        + decimal(ts.0 as nat) + "/"@ + decimal(ts.1 as nat) + "\n      \\absolute {\n        "@ + music
        + "\n      }\n      \\bar \"|.\"\n    }\n"@
}

/// The staff of a track, when its notes follow one another without gap or overlap and every
/// part can be written.
pub open spec fn lily_track(cfg: LilyPondConfig, t: TrackV, ts: TimeSignature) -> Option<Seq<char>> {
    if !seq_ends_fit(t.events) || !track_contiguous(t) {
        None
    } else {
        let items = sorted_items(track_items(t));
        match music_from(cfg, items, items.len() as int, ts) {
            None => None,
            Some((txt, _)) => Some(staff_text(t.instrument, ts, trim_spec(txt))),
        }
    }
}

/// The staves of the first `k` tracks.
pub open spec fn lily_tracks(cfg: LilyPondConfig, tracks: Seq<TrackV>, ts: TimeSignature, k: int) -> Option<
    Seq<char>,
>
    decreases k,
{
    if k <= 0 {
        Some(Seq::empty())
    } else {
        match (lily_tracks(cfg, tracks, ts, k - 1), lily_track(cfg, tracks[k - 1], ts)) {
            (Some(a), Some(b)) => Some(a + b),
            _ => None,
        }
    }
}

/// The version line and, when there is a title or a composer, the header block.
pub open spec fn score_head(cfg: LilyPondConfig) -> Seq<char> {
    "\\version \""@ + cfg.version@ + "\"\n\n"@ + (if cfg.title is Some || cfg.composer is Some {
        "\\header {\n"@ + (match cfg.title {
            Some(t) => "  title = \""@ + t@ + "\"\n"@,
            None => Seq::empty(),
        }) + (match cfg.composer {
            Some(c) => "  composer = \""@ + c@ + "\"\n"@,
            None => Seq::empty(),
        }) + "}\n\n"@
    } else {
        Seq::empty()
    }) + "\\score {\n  <<\n"@
}

/// The end of the score: the layout block and the MIDI block with the tempo, if any.
pub open spec fn score_tail(cfg: LilyPondConfig) -> Seq<char> {
    "  >>\n  \\layout { }\n  \\midi {\n"@ + (match cfg.tempo {
        Some(t) => "    \\tempo 4 = "@ + decimal(t as nat) + "\n"@,
        None => Seq::empty(),
    }) + "  }\n}\n"@
}

/// The LilyPond file of a composition: a staff for each track between the head and the
/// tail; `None` when some track cannot be written.
pub open spec fn lily_score(cfg: LilyPondConfig, c: CompositionV) -> Option<Seq<char>> {
    match lily_tracks(cfg, c.tracks, c.time_signature, c.tracks.len() as int) {
        None => None,
        Some(t) => Some(score_head(cfg) + t + score_tail(cfg)),
    }
}

/// `s` without white space at either end.
fn trim_string(s: &String) -> (r: String)
    ensures
        r@ == trim_spec(s@),
{
    let c = str_to_chars(s.as_str());
    assert(c@.subrange(0, c@.len() as int) =~= c@);
    let a = skip_ws(&c, 0, c.len());
    let b = skip_ws_back(&c, a, c.len());
    let mut r = String::new();
    let mut i = a;
    while i < b
        invariant
            a <= i <= b <= c@.len(),
            r@ == c@.subrange(a as int, i as int),
        decreases b - i,
    {
        push_char(&mut r, c[i]);
        i = i + 1;
        assert(r@ =~= c@.subrange(a as int, i as int));
    }
    assert(r@ =~= trim_spec(s@));
    r
}

impl LilyPondRenderer {
    /// A note with the pitch and volume of `e`, or a rest, lasting `d`: tied standard notes,
    /// or rests one after the other; `None` when `d` cannot be written so.
    fn piece_exec(&self, e: &Event, d: Duration, is_rest: bool) -> (r: Option<String>)
        ensures
            match r {
                Some(x) => piece_text(self.config, *e, d, is_rest) == Some(x@),
                None => piece_text(self.config, *e, d, is_rest) is None,
            },
    {
        if !d.binary_expandable() {
            return None;
        }
        let ghost dens = expand_denoms(d.value.0, expand_limit(self.config.min_neg_power));
        let pieces = d.binary_expand(self.config.min_neg_power);
        let mut out = String::new();
        let mut i: usize = 0;
        while i < pieces.len()
            invariant
                i <= pieces@.len(),
                pieces@.len() == dens.len(),
                forall|k: int| 0 <= k < pieces@.len() ==> #[trigger] pieces@[k] == unit_piece(
                    d.time_signature,
                    dens[k],
                ),
                out@ == (if is_rest {
                    rest_text(dens, i as int)
                } else {
                    note_text(self.config, e.pitch, e.volume, dens, i as int)
                }),
            decreases pieces@.len() - i,
        {
            let piece = pieces[i];
            assert(piece == unit_piece(d.time_signature, dens[i as int]));
            let len = self.duration_to_lilypond(piece);
            if is_rest {
                if i > 0 {
                    push_char(&mut out, ' ');
                }
                push_char(&mut out, 'r');
                push_str(&mut out, len.as_str());
            } else {
                if i > 0 {
                    push_char(&mut out, '~');
                }
                let p = self.pitch_to_lilypond(e.pitch);
                push_str(&mut out, p.as_str());
                push_str(&mut out, len.as_str());
                if self.config.write_dynamics && i == 0 {
                    let dy = self.volume_to_lilypond_dynamics(e.volume);
                    push_str(&mut out, dy.as_str());
                }
            }
            i = i + 1;
            proof {
                if is_rest {
                    assert(out@ =~= rest_text(dens, i as int));
                } else {
                    assert(out@ =~= note_text(self.config, e.pitch, e.volume, dens, i as int));
                }
            }
        }
        Some(out)
    }
}

/// `a * b` of two `u32` fits a `u64`.
proof fn lemma_u32_product(a: int, b: int)
    requires
        0 <= a <= u32::MAX,
        0 <= b <= u32::MAX,
    ensures
        0 <= a * b <= u64::MAX,
{
    assert(0 <= a * b <= 0xffff_ffff * 0xffff_ffff) by (nonlinear_arith)
        requires
            0 <= a <= 0xffff_ffff,
            0 <= b <= 0xffff_ffff,
    ;
}

/// Decides `diff_fits`.
fn diff_fits_exec(a: &Ratio, b: &Ratio) -> (r: bool)
    ensures
        r == diff_fits(*a, *b),
{
    let an = a.numer() as u64;
    let ad = a.denom() as u64;
    let bn = b.numer() as u64;
    let bd = b.denom() as u64;
    proof {
        lemma_u32_product(bn as int, ad as int);
        lemma_u32_product(an as int, bd as int);
        lemma_u32_product(ad as int, bd as int);
    }
    bn * ad <= an * bd && an * bd <= 0xffff_ffff && ad * bd <= 0xffff_ffff
}

/// The pieces of a note or rest cut at measure boundaries, as `measure_pieces` says.
fn measure_pieces_exec(dur: Duration, pos: Duration, ts: TimeSignature) -> (r: Option<Vec<Duration>>)
    ensures
        match r {
            Some(v) => measure_pieces(dur, pos, ts) == Some(v@),
            None => measure_pieces(dur, pos, ts) is None,
        },
{
    let dd = ts.1;
    let nn = ts.0;
    if nn == 0 || dd == 0 {
        return None;
    }
    let pv = pos.value.0;
    let dv = dur.value.0;
    let pn = pv.numer();
    let dn = dv.numer();
    proof {
        lemma_u32_product(pn as int, dd as int);
        lemma_u32_product(dn as int, dd as int);
    }
    if (pn as u64) * (dd as u64) > 0xffff_ffff || (dn as u64) * (dd as u64) > 0xffff_ffff {
        return None;
    }
    let sb = pv.times_integer(dd);
    let eb = dv.times_integer(dd);
    let whole = Ratio::from_integer(nn);
    let sbd = sb.denom();
    proof {
        lemma_u32_product(sbd as int, nn as int);
    }
    if (sbd as u64) * (nn as u64) > 0xffff_ffff {
        return None;
    }
    let into = sb.rem_integer(nn);
    if !diff_fits_exec(&whole, &into) {
        return None;
    }
    let until = whole.minus(into);
    if eb.at_most(&until) {
        let mut v: Vec<Duration> = Vec::new();
        v.push(dur);
        assert(v@ =~= seq![dur]);
        return Some(v);
    }
    let ud = until.denom();
    proof {
        lemma_u32_product(dd as int, ud as int);
    }
    if !diff_fits_exec(&eb, &until) || (dd as u64) * (ud as u64) > 0xffff_ffff {
        return None;
    }
    let r = eb.minus(until);
    let rn = r.numer();
    if rn == 0 {
        return None;
    }
    let rd = r.denom();
    proof {
        lemma_u32_product(rd as int, nn as int);
        assert((rd as int) * (nn as int) >= 1) by (nonlinear_arith)
            requires
                rd >= 1,
                nn >= 1,
        ;
    }
    let m: u64 = ((rn - 1) as u64) / ((rd as u64) * (nn as u64));
    assert(m as int == full_measures(r, nn as int));
    assert(m <= rn) by {
        vstd::arithmetic::div_mod::lemma_div_is_ordered_by_denominator((rn - 1) as int, 1, (rd as int) * (nn as int));
    }
    proof {
        lemma_u32_product(m as int, nn as int);
    }
    if m * (nn as u64) > 0xffff_ffff {
        return None;
    }
    let mn = Ratio::from_integer((m * (nn as u64)) as u32);
    if !diff_fits_exec(&r, &mn) {
        return None;
    }
    let last = r.minus(mn);
    let ld = last.denom();
    proof {
        lemma_u32_product(dd as int, ld as int);
    }
    if (dd as u64) * (ld as u64) > 0xffff_ffff {
        return None;
    }
    let first = Duration::from_beats_with_ts(until, ts);
    let full = Duration::from_beats_with_ts(whole, ts);
    let tail = Duration::from_beats_with_ts(last, ts);
    let mut v: Vec<Duration> = Vec::new();
    v.push(first);
    let mut k: u64 = 0;
    while k < m
        invariant
            k <= m,
            v@ == seq![first] + repeat_dur(full, k as nat),
        decreases m - k,
    {
        v.push(full);
        k = k + 1;
        assert(v@ =~= seq![first] + repeat_dur(full, k as nat));
    }
    v.push(tail);
    proof {
        assert(first == beats_dur(until, ts));
        assert(full == beats_dur(whole, ts));
        assert(tail == beats_dur(last, ts));
        assert(v@ =~= seq![beats_dur(until, ts)] + repeat_dur(beats_dur(whole, ts), m as nat) + seq![
            beats_dur(last, ts),
        ]);
    }
    Some(v)
}

proof fn lemma_pieces_none(cfg: LilyPondConfig, e: Event, ps: Seq<Duration>, is_rest: bool, k: int, j: int)
    requires
        0 <= k <= j,
        pieces_text(cfg, e, ps, is_rest, k) is None,
    ensures
        pieces_text(cfg, e, ps, is_rest, j) is None,
    decreases j,
{
    if j > k {
        lemma_pieces_none(cfg, e, ps, is_rest, k, j - 1);
    }
}

proof fn lemma_music_none(cfg: LilyPondConfig, items: Seq<(Event, bool)>, k: int, j: int, ts: TimeSignature)
    requires
        0 <= k <= j,
        music_from(cfg, items, k, ts) is None,
    ensures
        music_from(cfg, items, j, ts) is None,
    decreases j,
{
    if j > k {
        lemma_music_none(cfg, items, k, j - 1, ts);
    }
}

proof fn lemma_tracks_none(cfg: LilyPondConfig, tracks: Seq<TrackV>, ts: TimeSignature, k: int, j: int)
    requires
        0 <= k <= j,
        lily_tracks(cfg, tracks, ts, k) is None,
    ensures
        lily_tracks(cfg, tracks, ts, j) is None,
    decreases j,
{
    if j > k {
        lemma_tracks_none(cfg, tracks, ts, k, j - 1);
    }
}

/// Decides `end_fits`.
fn end_fits_exec(e: &Event) -> (r: bool)
    ensures
        r == end_fits(*e),
{
    let a = e.start.value.0;
    let b = e.duration.value.0;
    let an = a.numer() as u64;
    let ad = a.denom() as u64;
    let bn = b.numer() as u64;
    let bd = b.denom() as u64;
    proof {
        lemma_u32_product(an as int, bd as int);
        lemma_u32_product(bn as int, ad as int);
        lemma_u32_product(ad as int, bd as int);
    }
    e.start.time_signature == e.duration.time_signature && (an * bd) as u128 + (bn * ad) as u128
        <= 0xffff_ffff && ad * bd <= 0xffff_ffff
}

/// `x` placed among the items, sorted by start, after those that do not start later.
fn insert_item_exec(s: Vec<(Event, bool)>, x: (Event, bool)) -> (r: Vec<(Event, bool)>)
    ensures
        r@ == insert_item(s@, x),
    decreases s@.len(),
{
    let mut s = s;
    if s.len() == 0 {
        let mut r: Vec<(Event, bool)> = Vec::new();
        r.push(x);
        assert(r@ =~= seq![x]);
        r
    } else {
        let last = s[s.len() - 1];
        if x.0.start.less_than(&last.0.start) {
            let ghost s0 = s@;
            s.pop();
            assert(s@ =~= s0.drop_last());
            let mut r = insert_item_exec(s, x);
            r.push(last);
            r
        } else {
            s.push(x);
            s
        }
    }
}

/// The notes and rests of a track, sorted stably by start.
fn sorted_items_exec(t: &Track) -> (r: Vec<(Event, bool)>)
    ensures
        r@ == sorted_items(track_items(t@)),
{
    let mut items: Vec<(Event, bool)> = Vec::new();
    let mut i: usize = 0;
    while i < t.events.len()
        invariant
            i <= t.events@.len(),
            items@ == t.events@.take(i as int).map_values(|e: Event| (e, false)),
        decreases t.events@.len() - i,
    {
        items.push((t.events[i], false));
        i = i + 1;
        assert(items@ =~= t.events@.take(i as int).map_values(|e: Event| (e, false)));
    }
    let ghost evs = items@;
    let mut j: usize = 0;
    while j < t.rests.len()
        invariant
            j <= t.rests@.len(),
            i == t.events@.len(),
            evs == t.events@.take(i as int).map_values(|e: Event| (e, false)),
            items@ == evs + t.rests@.take(j as int).map_values(|e: Event| (e, true)),
        decreases t.rests@.len() - j,
    {
        items.push((t.rests[j], true));
        j = j + 1;
        assert(items@ =~= evs + t.rests@.take(j as int).map_values(|e: Event| (e, true)));
    }
    assert(t.events@.take(i as int) =~= t.events@);
    assert(t.rests@.take(j as int) =~= t.rests@);
    assert(items@ =~= track_items(t@));
    let ghost all = items@;
    let mut r: Vec<(Event, bool)> = Vec::new();
    let mut k: usize = 0;
    while k < items.len()
        invariant
            k <= items@.len(),
            all == items@,
            r@ == sorted_items(all.take(k as int)),
        decreases items@.len() - k,
    {
        assert(all.take(k + 1).drop_last() =~= all.take(k as int));
        r = insert_item_exec(r, items[k]);
        k = k + 1;
    }
    assert(all.take(k as int) =~= all);
    r
}

impl LilyPondRenderer {
    /// A note or rest of length `dur` from `pos`, cut at measure boundaries and written.
    fn measured_exec(&self, e: &Event, dur: Duration, pos: Duration, ts: TimeSignature, is_rest: bool) -> (r:
        Option<String>)
        ensures
            match r {
                Some(x) => measured_text(self.config, *e, dur, pos, ts, is_rest) == Some(x@),
                None => measured_text(self.config, *e, dur, pos, ts, is_rest) is None,
            },
    {
        let ps = match measure_pieces_exec(dur, pos, ts) {
            Some(v) => v,
            None => return None,
        };
        let mut out = String::new();
        let mut i: usize = 0;
        while i < ps.len()
            invariant
                i <= ps@.len(),
                measure_pieces(dur, pos, ts) == Some(ps@),
                pieces_text(self.config, *e, ps@, is_rest, i as int) == Some(out@),
            decreases ps@.len() - i,
        {
            let t = match self.piece_exec(e, ps[i], is_rest) {
                Some(t) => t,
                None => {
                    proof {
                        lemma_pieces_none(self.config, *e, ps@, is_rest, i + 1, ps@.len() as int);
                    }
                    return None;
                },
            };
            if i > 0 {
                if is_rest {
                    push_char(&mut out, ' ');
                } else {
                    push_char(&mut out, '~');
                }
            }
            push_str(&mut out, t.as_str());
            i = i + 1;
            proof {
                let a = pieces_text(self.config, *e, ps@, is_rest, i - 1);
                assert(a is Some);
            }
            assert(pieces_text(self.config, *e, ps@, is_rest, i as int) == Some(out@));
        }
        Some(out)
    }

    /// The staff of a track, as `lily_track` says.
    fn track_exec(&self, t: &Track, ts: TimeSignature) -> (r: Option<String>)
        ensures
            match r {
                Some(x) => lily_track(self.config, t@, ts) == Some(x@),
                None => lily_track(self.config, t@, ts) is None,
            },
    {
        let mut q: usize = 0;
        while q < t.events.len()
            invariant
                q <= t.events@.len(),
                forall|k: int| 0 <= k < q ==> end_fits(#[trigger] t.events@[k]),
            decreases t.events@.len() - q,
        {
            if !end_fits_exec(&t.events[q]) {
                return None;
            }
            q = q + 1;
        }
        assert(seq_ends_fit(t.events@));
        if !t.validate_contiguous() {
            return None;
        }
        let items = sorted_items_exec(t);
        let ghost its = items@;
        let mut out = String::new();
        let mut cur = Duration::zero(ts);
        assert(cur == zero_duration(ts));
        let mut k: usize = 0;
        while k < items.len()
            invariant
                its == items@,
                its == sorted_items(track_items(t@)),
                k <= its.len(),
                music_from(self.config, its, k as int, ts) == Some((out@, cur)),
            decreases its.len() - k,
        {
            let (e, is_rest) = items[k];
            let gap = cur.less_than(&e.start);
            let ghost before = out@;
            let ghost cur0 = cur;
            let ghost mut gtxt: Seq<char> = Seq::empty();
            if gap {
                let same = e.start.time_signature == cur.time_signature;
                if !same || !diff_fits_exec(&e.start.value.0, &cur.value.0) {
                    proof {
                        lemma_music_none(self.config, its, k + 1, its.len() as int, ts);
                    }
                    return None;
                }
                let g = match self.measured_exec(&e, e.start.minus(cur), cur, ts, true) {
                    Some(g) => g,
                    None => {
                        proof {
                            lemma_music_none(self.config, its, k + 1, its.len() as int, ts);
                        }
                        return None;
                    },
                };
                proof {
                    gtxt = g@;
                }
                push_str(&mut out, g.as_str());
                push_char(&mut out, ' ');
            }
            let pos = if gap {
                e.start
            } else {
                cur
            };
            let body = match self.measured_exec(&e, e.duration, pos, ts, is_rest) {
                Some(b) => b,
                None => {
                    proof {
                        lemma_music_none(self.config, its, k + 1, its.len() as int, ts);
                    }
                    return None;
                },
            };
            if !end_fits_exec(&e) {
                proof {
                    lemma_music_none(self.config, its, k + 1, its.len() as int, ts);
                }
                return None;
            }
            push_str(&mut out, body.as_str());
            push_char(&mut out, ' ');
            cur = e.start.plus(e.duration);
            k = k + 1;
            proof {
                assert(its[k - 1] == (e, is_rest));
                assert(out@ =~= before + (if gap {
                    gtxt + seq![' ']
                } else {
                    Seq::<char>::empty()
                }) + body@ + seq![' ']);
                assert(music_from(self.config, its, k as int, ts) == Some((out@, cur)));
            }
        }
        let music = trim_string(&out);
        let mut st = String::new();
        push_str(&mut st, "    \\new Staff {\n      \\set Staff.instrumentName = \"");
        push_instrument(&mut st, t.instrument);
        push_str(&mut st, "\"\n      \\time ");
        push_decimal(&mut st, ts.0 as u64);
        push_str(&mut st, "/");
        push_decimal(&mut st, ts.1 as u64);
        push_str(&mut st, "\n      \\absolute {\n        ");
        push_str(&mut st, music.as_str());
        push_str(&mut st, "\n      }\n      \\bar \"|.\"\n    }\n");
        assert(st@ =~= staff_text(t.instrument, ts, trim_spec(out@)));
        Some(st)
    }
}

impl LilyPondRenderer {
    /// The LilyPond file of a composition: the version, a header when there is a title or a
    /// composer, a staff for each track, and the layout and MIDI blocks; `None` where a track
    /// cannot be written (its notes are not contiguous, a length is no sum of standard note
    /// values, or the arithmetic leaves `u32`).
    pub fn try_render(&self, composition: &Composition) -> (r: Option<String>)
        ensures
            match r {
                Some(x) => lily_score(self.config_spec(), composition@) == Some(x@),
                None => lily_score(self.config_spec(), composition@) is None,
            },
    {
        let ts = composition.time_signature;
        let ghost tv = composition@.tracks;
        let mut body = String::new();
        let mut k: usize = 0;
        while k < composition.tracks.len()
            invariant
                k <= composition.tracks@.len(),
                tv == composition@.tracks,
                tv.len() == composition.tracks@.len(),
                ts == composition@.time_signature,
                lily_tracks(self.config, tv, ts, k as int) == Some(body@),
            decreases composition.tracks@.len() - k,
        {
            assert(tv[k as int] == composition.tracks@[k as int]@);
            let t = match self.track_exec(&composition.tracks[k], ts) {
                Some(t) => t,
                None => {
                    proof {
                        lemma_tracks_none(self.config, tv, ts, k + 1, tv.len() as int);
                    }
                    return None;
                },
            };
            push_str(&mut body, t.as_str());
            k = k + 1;
        }
        let mut out = String::new();
        push_str(&mut out, "\\version \"");
        push_str(&mut out, self.config.version.as_str());
        push_str(&mut out, "\"\n\n");
        if self.config.title.is_some() || self.config.composer.is_some() {
            push_str(&mut out, "\\header {\n");
            match &self.config.title {
                Some(t) => {
                    push_str(&mut out, "  title = \"");
                    push_str(&mut out, t.as_str());
                    push_str(&mut out, "\"\n");
                },
                None => {},
            }
            match &self.config.composer {
                Some(c) => {
                    push_str(&mut out, "  composer = \"");
                    push_str(&mut out, c.as_str());
                    push_str(&mut out, "\"\n");
                },
                None => {},
            }
            push_str(&mut out, "}\n\n");
        }
        push_str(&mut out, "\\score {\n  <<\n");
        assert(out@ =~= score_head(self.config));
        push_str(&mut out, body.as_str());
        push_str(&mut out, "  >>\n  \\layout { }\n  \\midi {\n");
        match self.config.tempo {
            Some(t) => {
                push_str(&mut out, "    \\tempo 4 = ");
                push_decimal(&mut out, t as u64);
                push_str(&mut out, "\n");
            },
            None => {},
        }
        push_str(&mut out, "  }\n}\n");
        assert(out@ =~= score_head(self.config) + body@ + score_tail(self.config));
        Some(out)
    }

    /// Render a composition to the text of a LilyPond file, as `try_render` does, for a
    /// composition whose every track can be written.
    pub fn render(&self, composition: &Composition) -> (s: String)
        requires
            lily_score(self.config_spec(), composition@) is Some,
        ensures
            lily_score(self.config_spec(), composition@) == Some(s@),
    {
        match self.try_render(composition) {
            Some(s) => s,
            None => String::new(),
        }
    }
}

} // verus!
