use vstd::prelude::*;
use crate::music_primitives::{
    Duration,
    duration_fits,
    letter_name_spec,
    rem_beats_spec,
    whole_measures_spec,
};
use crate::composition::{Instrument, TimeCompression, TrackId, instrument_name};
use crate::cfg::{
    MetaControl,
    MusicPrimitive,
    MusicString,
    MusicTransform,
    NonTerminal,
    PrimV,
    Symbol,
    SymbolV,
    Terminal,
    TerminalNote,
    ms_view,
    nt_view,
    prim_view,
    symbol_view,
};
use crate::text::{decimal, push_char, push_decimal, push_signed, signed_decimal};

verus! {

/// A duration written as whole measures and remaining beats: "2m+3/2", "1m", "3".
pub open spec fn duration_text(d: Duration) -> Seq<char> {
    let m = whole_measures_spec(d);
    let b = rem_beats_spec(d);
    (if m > 0 {
        decimal(m as nat) + seq!['m'] + (if b.n() > 0 {
            seq!['+']
        } else {
            Seq::empty()
        })
    } else {
        Seq::empty()
    }) + (if b.n() > 0 {
        if b.d() == 1 {
            decimal(b.n() as nat)
        } else {
            decimal(b.n() as nat) + seq!['/'] + decimal(b.d() as nat)
        }
    } else {
        Seq::empty()
    })
}

impl Duration {
    /// The duration written as whole measures and remaining beats.
    pub fn to_string(&self) -> (s: String)
        requires
            duration_fits(*self),
        ensures
            s@ == duration_text(*self),
    {
        let measures = self.get_whole_measures();
        let beats = self.get_rem_beats();
        let mut s = String::new();
        if measures > 0 {
            push_decimal(&mut s, measures as u64);
            push_char(&mut s, 'm');
            if beats.numer() > 0 {
                push_char(&mut s, '+');
            }
        }
        if beats.numer() > 0 {
            push_decimal(&mut s, beats.numer() as u64);
            if beats.denom() != 1 {
                push_char(&mut s, '/');
                push_decimal(&mut s, beats.denom() as u64);
            }
        }
        assert(s@ =~= duration_text(*self));
        s
    }
}

/// A compression factor written as a fraction: "1/2", "-1/1".
pub open spec fn compression_text(c: TimeCompression) -> Seq<char> {
    signed_decimal(c.0.n()) + seq!['/'] + signed_decimal(c.0.d())
}

impl TimeCompression {
    /// The factor written as a fraction.
    pub fn to_string(&self) -> (s: String)
        ensures
            s@ == compression_text(*self),
    {
        let mut s = String::new();
        push_signed(&mut s, self.0.numer() as i64);
        push_char(&mut s, '/');
        push_signed(&mut s, self.0.denom() as i64);
        assert(s@ =~= compression_text(*self));
        s
    }
}

/// A transform as written in a grammar: "T2", "x3", ">>1/2".
pub open spec fn transform_text(t: MusicTransform) -> Seq<char> {
    match t {
        MusicTransform::Transpose { semitones } => seq!['T'] + signed_decimal(semitones as int),
        MusicTransform::Repeat { num } => seq!['x'] + decimal(num as nat),
        MusicTransform::Compression { factor } => seq!['>', '>'] + compression_text(factor),
    }
}

impl MusicTransform {
    /// The transform as written in a grammar.
    pub fn to_string(&self) -> (s: String)
        ensures
            s@ == transform_text(*self),
    {
        let mut s = String::new();
        match self {
            MusicTransform::Transpose { semitones } => {
                push_char(&mut s, 'T');
                push_signed(&mut s, *semitones as i64);
            },
            MusicTransform::Repeat { num } => {
                push_char(&mut s, 'x');
                push_decimal(&mut s, *num as u64);
            },
            MusicTransform::Compression { factor } => {
                push_char(&mut s, '>');
                push_char(&mut s, '>');
                let f = factor.to_string();
                s.append(f.as_str());
            },
        }
        assert(s@ =~= transform_text(*self));
        s
    }
}

/// Append the name of an instrument.
pub(crate) fn push_instrument(s: &mut String, i: Instrument)
    ensures
        final(s)@ == old(s)@ + instrument_name(i),
{
    let name = match i {
        Instrument::SineWave => "SineWave",
        Instrument::Piano => "Piano",
        Instrument::Bass => "Bass",
        Instrument::BassDrum => "BassDrum",
        Instrument::HiHatOpen => "HiHatOpen",
        Instrument::HiHatClosed => "HiHatClosed",
        Instrument::Snare => "Snare",
        Instrument::Snare2 => "Snare2",
        Instrument::BongoHigh => "BongoHigh",
        Instrument::BongoLow => "BongoLow",
        Instrument::Shaker1 => "Shaker1",
        Instrument::Shaker2 => "Shaker2",
    };
    proof {
        reveal_strlit("SineWave");
        reveal_strlit("Piano");
        reveal_strlit("Bass");
        reveal_strlit("BassDrum");
        reveal_strlit("HiHatOpen");
        reveal_strlit("HiHatClosed");
        reveal_strlit("Snare");
        reveal_strlit("Snare2");
        reveal_strlit("BongoHigh");
        reveal_strlit("BongoLow");
        reveal_strlit("Shaker1");
        reveal_strlit("Shaker2");
    }
    s.append(name);
}

/// A meta control as written in a grammar: "::i=Piano", "::v=Volume(80)".
pub open spec fn meta_text(m: MetaControl) -> Seq<char> {
    match m {
        MetaControl::ChangeInstrument(i) => seq![':', ':', 'i', '='] + instrument_name(i),
        MetaControl::ChangeVolume(v) => seq![':', ':', 'v', '=', 'V', 'o', 'l', 'u', 'm', 'e', '(']
            + decimal(v.0 as nat) + seq![')'],
    }
}

impl MetaControl {
    pub fn to_string(&self) -> (s: String)
        ensures
            s@ == meta_text(*self),
    {
        let mut s = String::new();
        push_char(&mut s, ':');
        push_char(&mut s, ':');
        match self {
            MetaControl::ChangeInstrument(i) => {
                push_char(&mut s, 'i');
                push_char(&mut s, '=');
                push_instrument(&mut s, *i);
            },
            MetaControl::ChangeVolume(v) => {
                push_char(&mut s, 'v');
                push_char(&mut s, '=');
                push_char(&mut s, 'V');
                push_char(&mut s, 'o');
                push_char(&mut s, 'l');
                push_char(&mut s, 'u');
                push_char(&mut s, 'm');
                push_char(&mut s, 'e');
                push_char(&mut s, '(');
                push_decimal(&mut s, v.0 as u64);
                push_char(&mut s, ')');
            },
        }
        assert(s@ =~= meta_text(*self));
        s
    }
}

/// The durations of a terminal can be written.
pub open spec fn terminal_text_ok(t: Terminal) -> bool {
    match t {
        Terminal::AbsoluteSound { duration, .. } => duration_fits(duration),
        Terminal::CurrentSound { duration } => duration_fits(duration),
        _ => true,
    }
}

/// A terminal written out: a note as its letter name and duration, a rest as "_", the
/// current sound as a quarter-note sign, a pitch move as an arrow and the number of semitones.
pub open spec fn terminal_text(t: Terminal) -> Seq<char> {
    match t {
        Terminal::AbsoluteSound { duration, note } => match note {
            TerminalNote::Note { pitch } => seq![':'] + letter_name_spec(pitch.spec_note_num() as int)
                + seq!['<'] + duration_text(duration) + seq!['>'],
            TerminalNote::Rest => seq![':', '_', '<'] + duration_text(duration) + seq!['>'],
        },
        Terminal::Meta(m) => meta_text(m),
        Terminal::CurrentSound { duration } => seq!['\u{2669}', '<'] + duration_text(duration) + seq!['>'],
        Terminal::MovePitch { semitones } => (if semitones > 0 {
            seq!['\u{2191}']
        } else {
            seq!['\u{2193}']
        }) + signed_decimal(semitones as int),
    }
}

impl Terminal {
    pub fn to_string(&self) -> (s: String)
        requires
            terminal_text_ok(*self),
        ensures
            s@ == terminal_text(*self),
    {
        let mut s = String::new();
        match self {
            Terminal::AbsoluteSound { duration, note } => {
                match note {
                    TerminalNote::Note { pitch } => {
                        push_char(&mut s, ':');
                        let letter = pitch.letter_name();
                        s.append(letter.as_str());
                    },
                    TerminalNote::Rest => {
                        push_char(&mut s, ':');
                        push_char(&mut s, '_');
                    },
                }
                push_char(&mut s, '<');
                let d = duration.to_string();
                s.append(d.as_str());
                push_char(&mut s, '>');
            },
            Terminal::Meta(control) => {
                let m = control.to_string();
                s.append(m.as_str());
            },
            Terminal::CurrentSound { duration } => {
                push_char(&mut s, '\u{2669}');
                push_char(&mut s, '<');
                let d = duration.to_string();
                s.append(d.as_str());
                push_char(&mut s, '>');
            },
            Terminal::MovePitch { semitones } => {
                if *semitones > 0 {
                    push_char(&mut s, '\u{2191}');
                } else {
                    push_char(&mut s, '\u{2193}');
                }
                push_signed(&mut s, *semitones as i64);
            },
        }
        assert(s@ =~= terminal_text(*self));
        s
    }
}

impl NonTerminal {
    /// The name of the non-terminal.
    pub fn to_string(&self) -> (s: String)
        ensures
            s@ == nt_view(*self),
    {
        match self {
            NonTerminal::Custom(n) => n.clone(),
        }
    }
}

/// The durations of a symbol can be written.
pub open spec fn symbol_text_ok(s: SymbolV) -> bool {
    match s {
        SymbolV::NT(_) => true,
        SymbolV::T(t) => terminal_text_ok(t),
    }
}

/// A symbol written out.
pub open spec fn symbol_text(s: SymbolV) -> Seq<char> {
    match s {
        SymbolV::NT(nt) => nt,
        SymbolV::T(t) => terminal_text(t),
    }
}

impl Symbol {
    pub fn to_string(&self) -> (s: String)
        requires
            symbol_text_ok(symbol_view(*self)),
        ensures
            s@ == symbol_text(symbol_view(*self)),
    {
        match self {
            Symbol::NT(nt) => nt.to_string(),
            Symbol::T(t) => t.to_string(),
        }
    }
}

/// A primitive written out: a split as its branches between braces, separated by " | ";
/// a transform as "[transform][content]".
pub open spec fn prim_text(p: PrimV) -> Seq<char>
    decreases p, 0int,
{
    match p {
        PrimV::Simple(s) => symbol_text(s),
        PrimV::Split(bs) => seq!['{'] + join_branches(bs) + seq!['}'],
        PrimV::Transform(t, c) => seq!['['] + transform_text(t) + seq![']', '['] + ms_text(c) + seq![']'],
    }
}

/// A music string written out: every primitive followed by a space.
pub open spec fn ms_text(ps: Seq<PrimV>) -> Seq<char>
    decreases ps, 1int,
{
    if ps.len() == 0 {
        Seq::empty()
    } else {
        proof {
            assert(decreases_to!(ps => ps.drop_last()));
            assert(decreases_to!(ps => ps[ps.len() - 1]));
        }
        ms_text(ps.drop_last()) + prim_text(ps[ps.len() - 1]) + seq![' ']
    }
}

/// The branches of a split written out, separated by " | ".
pub open spec fn join_branches(bs: Seq<Seq<PrimV>>) -> Seq<char>
    decreases bs, 2int,
{
    if bs.len() == 0 {
        Seq::empty()
    } else if bs.len() == 1 {
        ms_text(bs[0])
    } else {
        proof {
            assert(decreases_to!(bs => bs.drop_last()));
            assert(decreases_to!(bs => bs[bs.len() - 1]));
        }
        join_branches(bs.drop_last()) + seq![' ', '|', ' '] + ms_text(bs[bs.len() - 1])
    }
}

/// The durations of a primitive, nested ones included, can be written.
pub open spec fn prim_text_ok(p: PrimV) -> bool
    decreases p, 0int,
{
    match p {
        PrimV::Simple(s) => symbol_text_ok(s),
        PrimV::Split(bs) => branches_text_ok(bs),
        PrimV::Transform(_, c) => ms_text_ok(c),
    }
}

/// The durations of a music string can be written.
pub open spec fn ms_text_ok(ps: Seq<PrimV>) -> bool
    decreases ps, 1int,
{
    if ps.len() == 0 {
        true
    } else {
        proof {
            assert(decreases_to!(ps => ps.drop_last()));
            assert(decreases_to!(ps => ps[ps.len() - 1]));
        }
        ms_text_ok(ps.drop_last()) && prim_text_ok(ps[ps.len() - 1])
    }
}

/// The durations of the branches of a split can be written.
pub open spec fn branches_text_ok(bs: Seq<Seq<PrimV>>) -> bool
    decreases bs, 2int,
{
    if bs.len() == 0 {
        true
    } else {
        proof {
            assert(decreases_to!(bs => bs.drop_last()));
            assert(decreases_to!(bs => bs[bs.len() - 1]));
        }
        branches_text_ok(bs.drop_last()) && ms_text_ok(bs[bs.len() - 1])
    }
}

proof fn lemma_ms_text_ok_prefix(ps: Seq<PrimV>, i: int)
    requires
        ms_text_ok(ps),
        0 <= i <= ps.len(),
    ensures
        ms_text_ok(ps.take(i)),
        i < ps.len() ==> prim_text_ok(ps[i]),
    decreases ps.len(),
{
    if i == ps.len() {
        assert(ps.take(i) =~= ps);
    } else {
        assert(ps.drop_last().take(i) =~= ps.take(i));
        lemma_ms_text_ok_prefix(ps.drop_last(), i);
        if i < ps.len() - 1 {
            assert(ps.drop_last()[i] == ps[i]);
        }
    }
}

proof fn lemma_branches_ok_prefix(bs: Seq<Seq<PrimV>>, i: int)
    requires
        branches_text_ok(bs),
        0 <= i <= bs.len(),
    ensures
        branches_text_ok(bs.take(i)),
        i < bs.len() ==> ms_text_ok(bs[i]),
    decreases bs.len(),
{
    if i == bs.len() {
        assert(bs.take(i) =~= bs);
    } else {
        assert(bs.drop_last().take(i) =~= bs.take(i));
        lemma_branches_ok_prefix(bs.drop_last(), i);
        if i < bs.len() - 1 {
            assert(bs.drop_last()[i] == bs[i]);
        }
    }
}

fn prim_to_string(p: &MusicPrimitive, s: &mut String)
    requires
        prim_text_ok(prim_view(*p)),
    ensures
        final(s)@ == old(s)@ + prim_text(prim_view(*p)),
    decreases p,
{
    match p {
        MusicPrimitive::Simple(sym) => {
            let t = sym.to_string();
            s.append(t.as_str());
        },
        MusicPrimitive::Split { branches } => {
            let ghost start = s@;
            let ghost bsv = prim_view(*p)->Split_0;
            push_char(s, '{');
            let mut b: usize = 0;
            assert(bsv.take(0) =~= Seq::<Seq<PrimV>>::empty());
            while b < branches.len()
                invariant
                    (*p) is Split,
                    (*p)->Split_branches == *branches,
                    bsv == prim_view(*p)->Split_0,
                    bsv.len() == branches@.len(),
                    branches_text_ok(bsv),
                    b <= branches@.len(),
                    s@ == start + seq!['{'] + join_branches(bsv.take(b as int)),
                decreases branches@.len() - b,
            {
                proof {
                    assert(decreases_to!(*p => (*p)->Split_branches));
                    assert(decreases_to!(*branches => branches@));
                    assert(decreases_to!(branches@ => branches@[b as int]));
                    assert(bsv[b as int] == ms_view(branches@[b as int]));
                    lemma_branches_ok_prefix(bsv, b as int);
                    assert(bsv.take(b + 1).drop_last() =~= bsv.take(b as int));
                    assert(bsv.take(b + 1)[b as int] == bsv[b as int]);
                }
                if b > 0 {
                    push_char(s, ' ');
                    push_char(s, '|');
                    push_char(s, ' ');
                }
                let t = ms_to_string(&branches[b]);
                s.append(t.as_str());
                proof {
                    if b == 0 {
                        assert(bsv.take(1) =~= seq![bsv[0]]);
                    }
                }
                b = b + 1;
                assert(s@ =~= start + seq!['{'] + join_branches(bsv.take(b as int)));
            }
            push_char(s, '}');
            assert(bsv.take(b as int) =~= bsv);
            assert(s@ =~= start + prim_text(prim_view(*p)));
        },
        MusicPrimitive::Transform { transform, content } => {
            let ghost start = s@;
            push_char(s, '[');
            let t = transform.to_string();
            s.append(t.as_str());
            push_char(s, ']');
            push_char(s, '[');
            let c = ms_to_string(content);
            s.append(c.as_str());
            push_char(s, ']');
            assert(s@ =~= start + prim_text(prim_view(*p)));
        },
    }
}

/// The music string written out.
fn ms_to_string(ms: &MusicString) -> (s: String)
    requires
        ms_text_ok(ms_view(*ms)),
    ensures
        s@ == ms_text(ms_view(*ms)),
    decreases ms,
{
    let ghost ps = ms_view(*ms);
    let mut s = String::new();
    let mut i: usize = 0;
    assert(ps.take(0) =~= Seq::<PrimV>::empty());
    while i < ms.0.len()
        invariant
            ps == ms_view(*ms),
            ps.len() == ms.0@.len(),
            ms_text_ok(ps),
            i <= ps.len(),
            s@ == ms_text(ps.take(i as int)),
        decreases ps.len() - i,
    {
        proof {
            assert(decreases_to!(ms => ms.0));
            assert(decreases_to!(ms.0 => ms.0@));
            assert(decreases_to!(ms.0@ => ms.0@[i as int]));
            assert(ps[i as int] == prim_view(ms.0@[i as int]));
            lemma_ms_text_ok_prefix(ps, i as int);
            assert(ps.take(i + 1).drop_last() =~= ps.take(i as int));
            assert(ps.take(i + 1)[i as int] == ps[i as int]);
        }
        prim_to_string(&ms.0[i], &mut s);
        push_char(&mut s, ' ');
        i = i + 1;
    }
    assert(ps.take(i as int) =~= ps);
    s
}

impl MusicString {
    /// The music string written out, each primitive followed by a space.
    pub fn to_string(&self) -> (s: String)
        requires
            ms_text_ok(ms_view(*self)),
        ensures
            s@ == ms_text(ms_view(*self)),
    {
        ms_to_string(self)
    }
}

/// A track identifier written out: the instrument's name, or "Custom(n)".
pub open spec fn track_id_text(t: TrackId) -> Seq<char> {
    match t {
        TrackId::Instrument(i) => instrument_name(i),
        TrackId::Custom(n) => seq!['C', 'u', 's', 't', 'o', 'm', '('] + decimal(n as nat) + seq![')'],
    }
}

impl TrackId {
    pub fn to_string(&self) -> (s: String)
        ensures
            s@ == track_id_text(*self),
    {
        let mut s = String::new();
        match self {
            TrackId::Instrument(i) => push_instrument(&mut s, *i),
            TrackId::Custom(n) => {
                push_char(&mut s, 'C');
                push_char(&mut s, 'u');
                push_char(&mut s, 's');
                push_char(&mut s, 't');
                push_char(&mut s, 'o');
                push_char(&mut s, 'm');
                push_char(&mut s, '(');
                push_decimal(&mut s, *n as u64);
                push_char(&mut s, ')');
            },
        }
        assert(s@ =~= track_id_text(*self));
        s
    }
}

} // verus!
