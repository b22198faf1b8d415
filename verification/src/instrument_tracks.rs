use vstd::prelude::*;
use crate::ratio::sum_fits;
use crate::music_primitives::{Duration, Pitch, TimeSignature, dur_plus, nv_plus};
use crate::composition::{
    Composition,
    CompositionV,
    Event,
    Instrument,
    Track,
    TrackId,
    TrackV,
    Volume,
    comp_compress_fits,
    comp_compressed,
    comp_duration_fits,
    comp_shift_fits,
    comp_shifted,
    comp_transposed,
    comp_transposes_fit,
    composition_duration,
    track_sum,
    tracks_view,
    zero_duration,
};
use crate::cfg::{
    ComposeError,
    MetaControl,
    MusicPrimitive,
    MusicString,
    MusicTransform,
    PrimV,
    Symbol,
    SymbolV,
    Terminal,
    TerminalNote,
    ms_view,
    prim_view,
    symbol_view,
};
use crate::compose::{comps_view, mismatch_message, with_event};

verus! {

/// The state of composing by instrument: one track per instrument, in the order the
/// instruments were first heard; the time reached; the current instrument and volume.
pub struct InstrumentState {
    pub tracks: Seq<(Instrument, TrackV)>,
    pub offset: Duration,
    pub instrument: Instrument,
    pub volume: Volume,
}

/// How composing by instrument ends: with a value; with branches of a split of different
/// lengths; or on an input on which it cannot go on, a terminal it does not play (the current
/// sound, a pitch move) or a time beyond `u32`.
pub enum Outcome1<T> {
    Done(T),
    Mismatch,
    Stuck,
}

/// Nothing written yet, at the start of time, with the starting instrument (a sine wave when
/// none is given) at volume 50.
pub open spec fn initial_state1(ts: TimeSignature, start: Option<Instrument>) -> InstrumentState {
    InstrumentState {
        tracks: Seq::empty(),
        offset: zero_duration(ts),
        instrument: match start {
            Some(i) => i,
            None => Instrument::SineWave,
        },
        volume: Volume(50),
    }
}

/// The position of the track of instrument `i`; -1 when there is none.
pub open spec fn find_instrument(m: Seq<(Instrument, TrackV)>, i: Instrument) -> int
    decreases m.len(),
{
    if m.len() == 0 {
        -1
    } else if m.last().0 == i {
        m.len() - 1
    } else {
        find_instrument(m.drop_last(), i)
    }
}

/// `e` written into the track of instrument `i` as an event or a rest; the track is started
/// when there is none.
pub open spec fn add_to_instrument(m: Seq<(Instrument, TrackV)>, i: Instrument, e: Event, is_rest: bool) -> Seq<(Instrument, TrackV)> {
    let j = find_instrument(m, i);
    if j < 0 {
        m.push(
            (
                i,
                TrackV {
                    identifier: TrackId::Instrument(i),
                    instrument: i,
                    events: if is_rest {
                        Seq::empty()
                    } else {
                        seq![e]
                    },
                    rests: if is_rest {
                        seq![e]
                    } else {
                        Seq::empty()
                    },
                },
            ),
        )
    } else {
        m.update(j, (i, with_event(m[j].1, e, is_rest)))
    }
}

/// The track `t` joined to the track of its instrument, or added after the others.
pub open spec fn add_track1(m: Seq<(Instrument, TrackV)>, t: TrackV) -> Seq<(Instrument, TrackV)> {
    let j = find_instrument(m, t.instrument);
    if j < 0 {
        m.push((t.instrument, t))
    } else {
        m.update(j, (m[j].0, track_sum(m[j].1, t)))
    }
}

/// The tracks `ts` joined in one after the other.
pub open spec fn add_tracks1(m: Seq<(Instrument, TrackV)>, ts: Seq<TrackV>) -> Seq<(Instrument, TrackV)>
    decreases ts.len(),
{
    if ts.len() == 0 {
        m
    } else {
        add_track1(add_tracks1(m, ts.drop_last()), ts.last())
    }
}

/// The tracks of the compositions joined in one after the other.
pub open spec fn add_comps1(m: Seq<(Instrument, TrackV)>, cs: Seq<CompositionV>) -> Seq<(Instrument, TrackV)>
    decreases cs.len(),
{
    if cs.len() == 0 {
        m
    } else {
        add_tracks1(add_comps1(m, cs.drop_last()), cs.last().tracks)
    }
}

/// The voices of a finished composition.
pub open spec fn result_comp1(st: InstrumentState, ts: TimeSignature) -> CompositionV {
    CompositionV { tracks: st.tracks.map_values(|p: (Instrument, TrackV)| p.1), time_signature: ts }
}

/// The time moved on by `d`.
pub open spec fn advance1(st: InstrumentState, d: Duration) -> Outcome1<InstrumentState> {
    if sum_fits(st.offset.value.0, d.value.0) {
        Outcome1::Done(
            InstrumentState {
                offset: Duration {
                    value: nv_plus(st.offset.value, d.value),
                    time_signature: st.offset.time_signature,
                },
                ..st
            },
        )
    } else {
        Outcome1::Stuck
    }
}

/// Two durations of one time signature whose sum fits.
pub open spec fn plus_fits(a: Duration, b: Duration) -> bool {
    a.time_signature == b.time_signature && sum_fits(a.value.0, b.value.0)
}

/// One symbol composed: notes and rests go to the track of the current instrument, meta
/// controls change the instrument or the volume.
pub open spec fn symbol_step1(s: SymbolV, ts: TimeSignature, st: InstrumentState) -> Outcome1<InstrumentState> {
    match s {
        SymbolV::NT(_) => advance1(st, zero_duration(ts)),
        SymbolV::T(t) => match t {
            Terminal::AbsoluteSound { duration, note } => match note {
                TerminalNote::Note { pitch } => advance1(
                    InstrumentState {
                        tracks: add_to_instrument(
                            st.tracks,
                            st.instrument,
                            Event { start: st.offset, duration, volume: st.volume, pitch },
                            false,
                        ),
                        ..st
                    },
                    duration,
                ),
                TerminalNote::Rest => advance1(
                    InstrumentState {
                        tracks: add_to_instrument(
                            st.tracks,
                            st.instrument,
                            Event {
                                start: st.offset,
                                duration,
                                volume: Volume(0),
                                pitch: Pitch::spec_new(0, 0),
                            },
                            true,
                        ),
                        ..st
                    },
                    duration,
                ),
            },
            Terminal::Meta(MetaControl::ChangeInstrument(i)) => advance1(
                InstrumentState { instrument: i, ..st },
                zero_duration(ts),
            ),
            Terminal::Meta(MetaControl::ChangeVolume(v)) => advance1(
                InstrumentState { volume: v, ..st },
                zero_duration(ts),
            ),
            _ => Outcome1::Stuck,
        },
    }
}

/// The branches of a split, each moved to the current time and joined in; they must all
/// last equally long, and the split takes that long.
pub open spec fn split_step1(comps: Seq<CompositionV>, ts: TimeSignature, st: InstrumentState) -> Outcome1<InstrumentState> {
    let shifted = comps.map_values(|c: CompositionV| comp_shifted(c, st.offset, true));
    if !(forall|k: int| 0 <= k < comps.len() ==> comp_shift_fits(#[trigger] comps[k], st.offset)) {
        Outcome1::Stuck
    } else if !(forall|k: int| 0 <= k < comps.len() ==> comp_duration_fits(#[trigger] shifted[k])) {
        Outcome1::Stuck
    } else if comps.len() == 0 {
        advance1(st, zero_duration(ts))
    } else if !(forall|k: int|
        0 <= k < comps.len() ==> composition_duration(#[trigger] shifted[k]) == composition_duration(
            shifted[0],
        )) {
        Outcome1::Mismatch
    } else {
        advance1(
            InstrumentState { tracks: add_comps1(st.tracks, shifted), ..st },
            composition_duration(shifted[0]),
        )
    }
}

/// The tracks after `k` copies of `inner`, each moved `d` later than the one before from
/// `off` on, and the time after the last copy; `None` when a time does not fit.
pub open spec fn repeat_copies(
    m: Seq<(Instrument, TrackV)>,
    inner: CompositionV,
    d: Duration,
    off: Duration,
    k: nat,
) -> Option<(Seq<(Instrument, TrackV)>, Duration)>
    decreases k,
{
    if k == 0 {
        Some((m, off))
    } else {
        match repeat_copies(m, inner, d, off, (k - 1) as nat) {
            None => None,
            Some((m1, o1)) => if comp_shift_fits(inner, o1) && plus_fits(o1, d) {
                Some((add_tracks1(m1, comp_shifted(inner, o1, true).tracks), dur_plus(o1, d)))
            } else {
                None
            },
        }
    }
}

/// `d` added `k` times to `start`; `None` when a sum does not fit.
pub open spec fn sum_copies(start: Duration, d: Duration, k: nat) -> Option<Duration>
    decreases k,
{
    if k == 0 {
        Some(start)
    } else {
        match sum_copies(start, d, (k - 1) as nat) {
            None => None,
            Some(t) => if plus_fits(t, d) {
                Some(dur_plus(t, d))
            } else {
                None
            },
        }
    }
}

/// A transformed passage, composed on its own, moved to the current time and joined in.
pub open spec fn transform_step1(t: MusicTransform, inner: CompositionV, ts: TimeSignature, st: InstrumentState) -> Outcome1<InstrumentState> {
    let off = st.offset;
    match t {
        MusicTransform::Transpose { semitones } => {
            let tr = comp_transposed(inner, semitones as int);
            let sh = comp_shifted(tr, off, true);
            if !comp_transposes_fit(inner, semitones as int) || !comp_shift_fits(tr, off)
                || !comp_duration_fits(sh) {
                Outcome1::Stuck
            } else {
                advance1(
                    InstrumentState { tracks: add_tracks1(st.tracks, sh.tracks), ..st },
                    composition_duration(sh),
                )
            }
        },
        MusicTransform::Compression { factor } => {
            let cm = comp_compressed(inner, factor);
            let sh = comp_shifted(cm, off, true);
            if !comp_compress_fits(inner, factor) || !comp_shift_fits(cm, off) || !comp_duration_fits(sh) {
                Outcome1::Stuck
            } else {
                advance1(
                    InstrumentState { tracks: add_tracks1(st.tracks, sh.tracks), ..st },
                    composition_duration(sh),
                )
            }
        },
        MusicTransform::Repeat { num } => {
            if !comp_duration_fits(inner) {
                Outcome1::Stuck
            } else {
                let d = composition_duration(inner);
                match repeat_copies(st.tracks, inner, d, off, num as nat) {
                    None => Outcome1::Stuck,
                    Some((m, _)) => match sum_copies(zero_duration(ts), d, num as nat) {
                        None => Outcome1::Stuck,
                        Some(total) => advance1(InstrumentState { tracks: m, ..st }, total),
                    },
                }
            }
        },
    }
}

/// The first `n` primitives composed by instrument from the start of time.
pub open spec fn compose1_steps(ps: Seq<PrimV>, n: int, ts: TimeSignature, start: Option<Instrument>) -> Outcome1<InstrumentState>
    decreases ps, n,
{
    if n <= 0 || n > ps.len() {
        Outcome1::Done(initial_state1(ts, start))
    } else {
        match compose1_steps(ps, n - 1, ts, start) {
            Outcome1::Done(st) => step1(ps[n - 1], ts, st),
            Outcome1::Mismatch => Outcome1::Mismatch,
            Outcome1::Stuck => Outcome1::Stuck,
        }
    }
}

/// The first `k` branches of a split, each composed by instrument on its own.
pub open spec fn compose1_branches(bs: Seq<Seq<PrimV>>, k: int, ts: TimeSignature, start: Option<Instrument>) -> Outcome1<Seq<CompositionV>>
    decreases bs, k,
{
    if k <= 0 || k > bs.len() {
        Outcome1::Done(Seq::empty())
    } else {
        match compose1_branches(bs, k - 1, ts, start) {
            Outcome1::Done(cs) => match compose1_steps(bs[k - 1], bs[k - 1].len() as int, ts, start) {
                Outcome1::Done(st) => Outcome1::Done(cs.push(result_comp1(st, ts))),
                Outcome1::Mismatch => Outcome1::Mismatch,
                Outcome1::Stuck => Outcome1::Stuck,
            },
            Outcome1::Mismatch => Outcome1::Mismatch,
            Outcome1::Stuck => Outcome1::Stuck,
        }
    }
}

/// One primitive composed by instrument.
pub open spec fn step1(p: PrimV, ts: TimeSignature, st: InstrumentState) -> Outcome1<InstrumentState>
    decreases p, 0int,
{
    match p {
        PrimV::Simple(s) => symbol_step1(s, ts, st),
        PrimV::Split(bs) => match compose1_branches(bs, bs.len() as int, ts, Some(st.instrument)) {
            Outcome1::Done(cs) => split_step1(cs, ts, st),
            Outcome1::Mismatch => Outcome1::Mismatch,
            Outcome1::Stuck => Outcome1::Stuck,
        },
        PrimV::Transform(t, content) => match compose1_steps(content, content.len() as int, ts, Some(st.instrument)) {
            Outcome1::Done(ist) => transform_step1(t, result_comp1(ist, ts), ts, st),
            Outcome1::Mismatch => Outcome1::Mismatch,
            Outcome1::Stuck => Outcome1::Stuck,
        },
    }
}

/// A whole music string composed by instrument.
pub open spec fn compose1_spec(ps: Seq<PrimV>, ts: TimeSignature, start: Option<Instrument>) -> Outcome1<InstrumentState> {
    compose1_steps(ps, ps.len() as int, ts, start)
}

/// The outcome of composing by instrument is what `r` reports.
pub open spec fn composed1_as(o: Outcome1<InstrumentState>, ts: TimeSignature, r: Result<Composition, ComposeError>) -> bool {
    match o {
        Outcome1::Done(st) => r matches Ok(c) && c@ == result_comp1(st, ts),
        Outcome1::Mismatch => r matches Err(ComposeError::MismatchedLengths(_)),
        Outcome1::Stuck => true,
    }
}


/// The tracks of an exec list by instrument, seen as values.
pub open spec fn instruments_view(m: Seq<(Instrument, Track)>) -> Seq<(Instrument, TrackV)> {
    m.map_values(|p: (Instrument, Track)| (p.0, p.1@))
}

/// Every track is filed under its own instrument, and no instrument has two tracks.
pub open spec fn keyed_by_instrument(m: Seq<(Instrument, TrackV)>) -> bool {
    &&& forall|k: int| 0 <= k < m.len() ==> (#[trigger] m[k]).1.instrument == m[k].0
    &&& forall|i: int, j: int| 0 <= i < j < m.len() ==> (#[trigger] m[i]).0 != (#[trigger] m[j]).0
}

/// No two of the tracks are for the same instrument.
pub open spec fn instruments_distinct(ts: Seq<TrackV>) -> bool {
    forall|i: int, j: int| 0 <= i < j < ts.len() ==> (#[trigger] ts[i]).instrument != (#[trigger] ts[j]).instrument
}

proof fn lemma_find_instrument(m: Seq<(Instrument, TrackV)>, i: Instrument)
    ensures
        -1 <= find_instrument(m, i) < m.len(),
        find_instrument(m, i) >= 0 ==> m[find_instrument(m, i)].0 == i,
        forall|k: int| find_instrument(m, i) < k < m.len() ==> (#[trigger] m[k]).0 != i,
    decreases m.len(),
{
    if m.len() > 0 {
        lemma_find_instrument(m.drop_last(), i);
        assert forall|k: int| find_instrument(m, i) < k < m.len() implies (#[trigger] m[k]).0 != i by {
            if k < m.len() - 1 {
                assert(m.drop_last()[k] == m[k]);
            }
        }
    }
}

proof fn lemma_steps1_prefix(ps: Seq<PrimV>, i: int, n: int, ts: TimeSignature, start: Option<Instrument>)
    requires
        0 <= i <= n <= ps.len(),
        !(compose1_steps(ps, n, ts, start) is Stuck),
    ensures
        !(compose1_steps(ps, i, ts, start) is Stuck),
        compose1_steps(ps, i, ts, start) is Mismatch ==> compose1_steps(ps, n, ts, start) is Mismatch,
    decreases n - i,
{
    if i < n {
        assert(!(compose1_steps(ps, n - 1, ts, start) is Stuck));
        lemma_steps1_prefix(ps, i, n - 1, ts, start);
    }
}

proof fn lemma_branches1_prefix(bs: Seq<Seq<PrimV>>, i: int, n: int, ts: TimeSignature, start: Option<Instrument>)
    requires
        0 <= i <= n <= bs.len(),
        !(compose1_branches(bs, n, ts, start) is Stuck),
    ensures
        !(compose1_branches(bs, i, ts, start) is Stuck),
        compose1_branches(bs, i, ts, start) is Mismatch ==> compose1_branches(bs, n, ts, start) is Mismatch,
    decreases n - i,
{
    if i < n {
        assert(!(compose1_branches(bs, n - 1, ts, start) is Stuck));
        lemma_branches1_prefix(bs, i, n - 1, ts, start);
    }
}

proof fn lemma_repeat_copies_prefix(
    m: Seq<(Instrument, TrackV)>,
    inner: CompositionV,
    d: Duration,
    off: Duration,
    k: nat,
    n: nat,
)
    requires
        k <= n,
        repeat_copies(m, inner, d, off, n) is Some,
    ensures
        repeat_copies(m, inner, d, off, k) is Some,
    decreases n - k,
{
    if k < n {
        lemma_repeat_copies_prefix(m, inner, d, off, k, (n - 1) as nat);
    }
}

proof fn lemma_sum_copies_prefix(start: Duration, d: Duration, k: nat, n: nat)
    requires
        k <= n,
        sum_copies(start, d, n) is Some,
    ensures
        sum_copies(start, d, k) is Some,
    decreases n - k,
{
    if k < n {
        lemma_sum_copies_prefix(start, d, k, (n - 1) as nat);
    }
}

/// The place of the track of instrument `i`, if there is one.
fn find_instrument_exec(m: &Vec<(Instrument, Track)>, i: Instrument) -> (r: Option<usize>)
    ensures
        match r {
            Some(j) => j < m@.len() && j == find_instrument(instruments_view(m@), i) && m@[j as int].0 == i,
            None => find_instrument(instruments_view(m@), i) < 0 && forall|k: int|
                0 <= k < m@.len() ==> (#[trigger] m@[k]).0 != i,
        },
{
    let ghost mv = instruments_view(m@);
    proof {
        lemma_find_instrument(mv, i);
    }
    let mut j = m.len();
    while j > 0 && m[j - 1].0 != i
        invariant
            j <= m@.len(),
            mv == instruments_view(m@),
            forall|k: int| j <= k < m@.len() ==> (#[trigger] m@[k]).0 != i,
        decreases j,
    {
        j = j - 1;
    }
    proof {
        let fk = find_instrument(mv, i);
        if j > 0 {
            assert(mv[j - 1].0 == i);
            if fk > j - 1 {
                assert(m@[fk].0 == mv[fk].0);
            }
            assert(fk == j - 1);
        } else {
            if fk >= 0 {
                assert(m@[fk].0 == mv[fk].0);
            }
            assert(fk < 0);
        }
    }
    if j > 0 {
        Some(j - 1)
    } else {
        None
    }
}

fn add_to_instrument_exec(m: &mut Vec<(Instrument, Track)>, i: Instrument, e: Event, is_rest: bool)
    requires
        keyed_by_instrument(instruments_view(old(m)@)),
    ensures
        instruments_view(final(m)@) == add_to_instrument(instruments_view(old(m)@), i, e, is_rest),
        keyed_by_instrument(instruments_view(final(m)@)),
{
    let ghost mv = instruments_view(m@);
    let found = find_instrument_exec(m, i);
    match found {
        Some(j) => {
            let (k, mut t) = m.remove(j);
            let ghost t0 = t@;
            assert(mv[j as int] == (k, t0));
            if is_rest {
                t.rests.push(e);
            } else {
                t.events.push(e);
            }
            assert(t@ == with_event(t0, e, is_rest));
            m.insert(j, (k, t));
            assert(instruments_view(m@) =~= mv.update(j as int, (i, with_event(mv[j as int].1, e, is_rest))));
        },
        None => {
            let mut t = Track {
                identifier: TrackId::Instrument(i),
                instrument: i,
                events: Vec::new(),
                rests: Vec::new(),
            };
            if is_rest {
                t.rests.push(e);
            } else {
                t.events.push(e);
            }
            let ghost nv = add_to_instrument(mv, i, e, is_rest).last().1;
            assert(t@.events =~= nv.events);
            assert(t@.rests =~= nv.rests);
            m.push((i, t));
            assert(instruments_view(m@) =~= add_to_instrument(mv, i, e, is_rest));
        },
    }
    assert(forall|k: int| 0 <= k < mv.len() ==> (#[trigger] mv[k]).1.instrument == mv[k].0);
}

fn add_track1_exec(m: &mut Vec<(Instrument, Track)>, t: Track)
    requires
        keyed_by_instrument(instruments_view(old(m)@)),
    ensures
        instruments_view(final(m)@) == add_track1(instruments_view(old(m)@), t@),
        keyed_by_instrument(instruments_view(final(m)@)),
{
    let ghost mv = instruments_view(m@);
    let found = find_instrument_exec(m, t.instrument);
    match found {
        Some(j) => {
            let (k, old_t) = m.remove(j);
            assert(mv[j as int] == (k, old_t@));
            assert(mv[j as int].1.instrument == mv[j as int].0);
            assert(old_t.instrument == k);
            let nt = old_t.add(t);
            m.insert(j, (k, nt));
            assert(instruments_view(m@) =~= add_track1(mv, t@));
        },
        None => {
            let key = t.instrument;
            m.push((key, t));
            assert(instruments_view(m@) =~= add_track1(mv, t@));
        },
    }
}

fn add_tracks1_exec(m: &mut Vec<(Instrument, Track)>, tv: Vec<Track>)
    requires
        keyed_by_instrument(instruments_view(old(m)@)),
    ensures
        instruments_view(final(m)@) == add_tracks1(instruments_view(old(m)@), tracks_view(tv@)),
        keyed_by_instrument(instruments_view(final(m)@)),
{
    let ghost m0 = instruments_view(m@);
    let ghost orig = tv@;
    let ghost all = tracks_view(tv@);
    let mut rest = tv;
    let mut n: usize = 0;
    let total = rest.len();
    assert(all.take(0) =~= Seq::<TrackV>::empty());
    while rest.len() > 0
        invariant
            total == orig.len(),
            n + rest@.len() == total,
            rest@ == orig.skip(n as int),
            all == tracks_view(orig),
            add_tracks1(m0, all.take(n as int)) == instruments_view(m@),
            keyed_by_instrument(instruments_view(m@)),
        decreases rest@.len(),
    {
        proof {
            assert(all.take(n + 1).drop_last() =~= all.take(n as int));
            assert(all.take(n + 1).last() == all[n as int]);
        }
        let t = rest.remove(0);
        assert(t == orig[n as int]);
        assert(all[n as int] == t@);
        add_track1_exec(m, t);
        n = n + 1;
        assert(rest@ =~= orig.skip(n as int));
    }
    assert(all.take(n as int) =~= all);
}

fn copy_events(v: &Vec<Event>) -> (r: Vec<Event>)
    ensures
        r@ == v@,
{
    let mut r: Vec<Event> = Vec::new();
    let mut i: usize = 0;
    while i < v.len()
        invariant
            i <= v@.len(),
            r@ == v@.take(i as int),
        decreases v@.len() - i,
    {
        r.push(v[i]);
        i = i + 1;
        assert(r@ =~= v@.take(i as int));
    }
    assert(v@.take(i as int) =~= v@);
    r
}

fn copy_composition(c: &Composition) -> (r: Composition)
    ensures
        r@ == c@,
{
    let mut tracks: Vec<Track> = Vec::new();
    let mut i: usize = 0;
    while i < c.tracks.len()
        invariant
            i <= c.tracks@.len(),
            tracks_view(tracks@) == tracks_view(c.tracks@).take(i as int),
        decreases c.tracks@.len() - i,
    {
        let t = &c.tracks[i];
        let nt = Track {
            identifier: t.identifier,
            instrument: t.instrument,
            events: copy_events(&t.events),
            rests: copy_events(&t.rests),
        };
        assert(nt@ == t@);
        let ghost before = tracks_view(tracks@);
        tracks.push(nt);
        assert(tracks_view(tracks@) =~= before.push(nt@));
        i = i + 1;
        assert(tracks_view(tracks@) =~= tracks_view(c.tracks@).take(i as int));
    }
    assert(tracks_view(c.tracks@).take(i as int) =~= tracks_view(c.tracks@));
    Composition { tracks, time_signature: c.time_signature }
}

fn into_tracks1(m: Vec<(Instrument, Track)>) -> (v: Vec<Track>)
    ensures
        tracks_view(v@) == instruments_view(m@).map_values(|p: (Instrument, TrackV)| p.1),
{
    let ghost orig = m@;
    let mut rest = m;
    let mut v: Vec<Track> = Vec::new();
    let total = rest.len();
    while rest.len() > 0
        invariant
            total == orig.len(),
            v@.len() + rest@.len() == total,
            rest@ == orig.skip(v@.len() as int),
            forall|k: int| 0 <= k < v@.len() ==> #[trigger] v@[k] == orig[k].1,
        decreases rest@.len(),
    {
        let (_instrument, t) = rest.remove(0);
        v.push(t);
        assert(rest@ =~= orig.skip(v@.len() as int));
    }
    assert(tracks_view(v@) =~= instruments_view(orig).map_values(|p: (Instrument, TrackV)| p.1));
    v
}

/// A composition by instrument under way. The tracks are kept as (instrument, track) pairs
/// in the order in which the instruments first played, and the result lists them in that
/// order: a hash map from instruments to tracks would hand its tracks out in an order that
/// changes from run to run, which no contract could state.
struct InstrumentComposer {
    tracks: Vec<(Instrument, Track)>,
    offset: Duration,
    instrument: Instrument,
    volume: Volume,
}

impl InstrumentComposer {
    spec fn state(&self) -> InstrumentState {
        InstrumentState {
            tracks: instruments_view(self.tracks@),
            offset: self.offset,
            instrument: self.instrument,
            volume: self.volume,
        }
    }

    spec fn wf(&self) -> bool {
        keyed_by_instrument(instruments_view(self.tracks@))
    }

    fn advance_by(&mut self, d: Duration)
        requires
            advance1(old(self).state(), d) is Done,
        ensures
            advance1(old(self).state(), d) == Outcome1::Done(final(self).state()),
            final(self).tracks == old(self).tracks,
    {
        self.offset.add_assign(d);
    }

    fn symbol_exec(&mut self, s: &Symbol, ts: TimeSignature)
        requires
            !(symbol_step1(symbol_view(*s), ts, old(self).state()) is Stuck),
            old(self).wf(),
        ensures
            symbol_step1(symbol_view(*s), ts, old(self).state()) == Outcome1::Done(final(self).state()),
            final(self).wf(),
    {
        match s {
            Symbol::NT(_) => {
                self.advance_by(Duration::zero(ts));
            },
            Symbol::T(t) => match t {
                Terminal::AbsoluteSound { duration, note } => match note {
                    TerminalNote::Note { pitch } => {
                        let e = Event {
                            start: self.offset,
                            duration: *duration,
                            volume: self.volume,
                            pitch: *pitch,
                        };
                        add_to_instrument_exec(&mut self.tracks, self.instrument, e, false);
                        self.advance_by(*duration);
                    },
                    TerminalNote::Rest => {
                        let e = Event {
                            start: self.offset,
                            duration: *duration,
                            volume: Volume(0),
                            pitch: Pitch::none(),
                        };
                        add_to_instrument_exec(&mut self.tracks, self.instrument, e, true);
                        self.advance_by(*duration);
                    },
                },
                Terminal::Meta(MetaControl::ChangeInstrument(i)) => {
                    self.instrument = *i;
                    self.advance_by(Duration::zero(ts));
                },
                Terminal::Meta(MetaControl::ChangeVolume(v)) => {
                    self.volume = *v;
                    self.advance_by(Duration::zero(ts));
                },
                _ => {},
            },
        }
    }
}


impl InstrumentComposer {
    fn split_finish(&mut self, comps: Vec<Composition>, ts: TimeSignature) -> (r: Result<(), ComposeError>)
        requires
            !(split_step1(comps_view(comps@), ts, old(self).state()) is Stuck),
            old(self).wf(),
        ensures
            match split_step1(comps_view(comps@), ts, old(self).state()) {
                Outcome1::Done(st) => r is Ok && final(self).state() == st && final(self).wf(),
                Outcome1::Mismatch => r matches Err(ComposeError::MismatchedLengths(_)),
                Outcome1::Stuck => true,
            },
    {
        let ghost orig = comps@;
        let ghost cv = comps_view(comps@);
        let ghost st0 = self.state();
        let ghost shifted = cv.map_values(|c: CompositionV| comp_shifted(c, st0.offset, true));
        assert(forall|k: int| 0 <= k < cv.len() ==> comp_shift_fits(#[trigger] cv[k], st0.offset));
        assert(forall|k: int| 0 <= k < cv.len() ==> comp_duration_fits(#[trigger] shifted[k]));
        let mut shifted_v: Vec<Composition> = Vec::new();
        let mut durs: Vec<Duration> = Vec::new();
        let mut rest = comps;
        let total = rest.len();
        while rest.len() > 0
            invariant
                total == orig.len(),
                cv == comps_view(orig),
                shifted == cv.map_values(|c: CompositionV| comp_shifted(c, st0.offset, true)),
                shifted_v@.len() + rest@.len() == total,
                rest@ == orig.skip(shifted_v@.len() as int),
                durs@.len() == shifted_v@.len(),
                forall|k: int| 0 <= k < cv.len() ==> comp_shift_fits(#[trigger] cv[k], st0.offset),
                forall|k: int| 0 <= k < cv.len() ==> comp_duration_fits(#[trigger] shifted[k]),
                forall|k: int| 0 <= k < shifted_v@.len() ==> (#[trigger] shifted_v@[k])@ == shifted[k],
                forall|k: int| 0 <= k < durs@.len() ==> #[trigger] durs@[k] == composition_duration(shifted[k]),
                self.state() == st0,
                self.wf(),
            decreases rest@.len(),
        {
            let ghost n = shifted_v@.len() as int;
            let mut c = rest.remove(0);
            assert(c == orig[n]);
            assert(cv[n] == c@);
            assert(comp_shift_fits(cv[n], st0.offset));
            c.shift_by(self.offset, true);
            assert(c@ =~= shifted[n]);
            assert(comp_duration_fits(shifted[n]));
            let d = c.get_duration();
            durs.push(d);
            shifted_v.push(c);
            assert(rest@ =~= orig.skip(shifted_v@.len() as int));
        }
        if shifted_v.len() == 0 {
            self.advance_by(Duration::zero(ts));
            return Ok(());
        }
        let d0 = durs[0];
        let mut uniform = true;
        let mut k: usize = 0;
        while k < durs.len()
            invariant
                k <= durs@.len(),
                d0 == durs@[0],
                uniform == (forall|j: int| 0 <= j < k ==> #[trigger] durs@[j] == d0),
            decreases durs@.len() - k,
        {
            if durs[k] != d0 {
                uniform = false;
            }
            k = k + 1;
        }
        if !uniform {
            proof {
                let j = choose|j: int| 0 <= j < durs@.len() && #[trigger] durs@[j] != d0;
                assert(composition_duration(shifted[j]) != composition_duration(shifted[0]));
            }
            return Err(ComposeError::MismatchedLengths(mismatch_message(&durs)));
        }
        assert(forall|j: int|
            0 <= j < cv.len() ==> composition_duration(#[trigger] shifted[j]) == composition_duration(
                shifted[0],
            )) by {
            assert forall|j: int| 0 <= j < cv.len() implies composition_duration(#[trigger] shifted[j])
                == composition_duration(shifted[0]) by {
                assert(durs@[j] == d0);
            }
        }
        let ghost m0 = self.state().tracks;
        let ghost shv = shifted_v@;
        let mut rest2 = shifted_v;
        let mut n2: usize = 0;
        let total2 = rest2.len();
        assert(shifted.take(0) =~= Seq::<CompositionV>::empty());
        while rest2.len() > 0
            invariant
                total2 == shv.len(),
                shv.len() == shifted.len(),
                forall|k: int| 0 <= k < shv.len() ==> (#[trigger] shv[k])@ == shifted[k],
                n2 + rest2@.len() == total2,
                rest2@ == shv.skip(n2 as int),
                add_comps1(m0, shifted.take(n2 as int)) == instruments_view(self.tracks@),
                self.wf(),
                self.offset == st0.offset,
                self.instrument == st0.instrument,
                self.volume == st0.volume,
            decreases rest2@.len(),
        {
            proof {
                assert(shifted.take(n2 + 1).drop_last() =~= shifted.take(n2 as int));
                assert(shifted.take(n2 + 1).last() == shifted[n2 as int]);
            }
            let c = rest2.remove(0);
            assert(c == shv[n2 as int]);
            add_tracks1_exec(&mut self.tracks, c.tracks);
            n2 = n2 + 1;
            assert(rest2@ =~= shv.skip(n2 as int));
        }
        assert(shifted.take(n2 as int) =~= shifted);
        self.advance_by(d0);
        Ok(())
    }

    fn transform_finish(&mut self, t: MusicTransform, inner: Composition, ts: TimeSignature)
        requires
            !(transform_step1(t, inner@, ts, old(self).state()) is Stuck),
            old(self).wf(),
        ensures
            transform_step1(t, inner@, ts, old(self).state()) == Outcome1::Done(final(self).state()),
            final(self).wf(),
    {
        let mut inner = inner;
        let ghost st0 = self.state();
        let ghost iv = inner@;
        match t {
            MusicTransform::Transpose { semitones } => {
                inner.transpose(semitones);
                assert(inner@ =~= comp_transposed(iv, semitones as int));
                inner.shift_by(self.offset, true);
                assert(inner@ =~= comp_shifted(comp_transposed(iv, semitones as int), st0.offset, true));
                let d = inner.get_duration();
                add_tracks1_exec(&mut self.tracks, inner.tracks);
                self.advance_by(d);
            },
            MusicTransform::Compression { factor } => {
                inner.compress(factor);
                assert(inner@ =~= comp_compressed(iv, factor));
                inner.shift_by(self.offset, true);
                assert(inner@ =~= comp_shifted(comp_compressed(iv, factor), st0.offset, true));
                let d = inner.get_duration();
                add_tracks1_exec(&mut self.tracks, inner.tracks);
                self.advance_by(d);
            },
            MusicTransform::Repeat { num } => {
                let d = inner.get_duration();
                let ghost m0 = st0.tracks;
                let mut offset = self.offset;
                let mut k: usize = 0;
                while k < num
                    invariant
                        k <= num,
                        inner@ == iv,
                        d == composition_duration(iv),
                        repeat_copies(m0, iv, d, st0.offset, num as nat) is Some,
                        repeat_copies(m0, iv, d, st0.offset, k as nat) == Some(
                            (instruments_view(self.tracks@), offset),
                        ),
                        self.wf(),
                        self.offset == st0.offset,
                        self.instrument == st0.instrument,
                        self.volume == st0.volume,
                    decreases num - k,
                {
                    proof {
                        lemma_repeat_copies_prefix(m0, iv, d, st0.offset, (k + 1) as nat, num as nat);
                    }
                    let mut copy = copy_composition(&inner);
                    copy.shift_by(offset, true);
                    add_tracks1_exec(&mut self.tracks, copy.tracks);
                    offset = offset.plus(d);
                    k = k + 1;
                }
                let mut total = Duration::zero(ts);
                let ghost z = total;
                assert(z == zero_duration(ts));
                let mut k2: usize = 0;
                while k2 < num
                    invariant
                        k2 <= num,
                        sum_copies(z, d, num as nat) is Some,
                        sum_copies(z, d, k2 as nat) == Some(total),
                    decreases num - k2,
                {
                    proof {
                        lemma_sum_copies_prefix(z, d, (k2 + 1) as nat, num as nat);
                    }
                    total = total.plus(d);
                    k2 = k2 + 1;
                }
                self.advance_by(total);
            },
        }
    }
}


impl InstrumentComposer {
    fn run_prim(&mut self, p: &MusicPrimitive, ts: TimeSignature) -> (r: Result<(), ComposeError>)
        requires
            !(step1(prim_view(*p), ts, old(self).state()) is Stuck),
            old(self).wf(),
        ensures
            match step1(prim_view(*p), ts, old(self).state()) {
                Outcome1::Done(st) => r is Ok && final(self).state() == st && final(self).wf(),
                Outcome1::Mismatch => r matches Err(ComposeError::MismatchedLengths(_)),
                Outcome1::Stuck => true,
            },
        decreases *p,
    {
        match p {
            MusicPrimitive::Simple(s) => {
                self.symbol_exec(s, ts);
                Ok(())
            },
            MusicPrimitive::Split { branches } => {
                let ghost bsv = Seq::new(
                    branches@.len(),
                    |i: int|
                        if 0 <= i < branches@.len() {
                            ms_view(branches@[i])
                        } else {
                            Seq::empty()
                        },
                );
                proof {
                    let pv = prim_view(*p);
                    assert(pv->Split_0 =~= bsv);
                    assert(pv == PrimV::Split(bsv));
                }
                let ghost st0 = self.state();
                let start = Some(self.instrument);
                let mut comps: Vec<Composition> = Vec::new();
                let mut b: usize = 0;
                assert(comps_view(comps@) =~= Seq::<CompositionV>::empty());
                while b < branches.len()
                    invariant
                        *p == (MusicPrimitive::Split { branches: *branches }),
                        prim_view(*p) == PrimV::Split(bsv),
                        bsv.len() == branches@.len(),
                        forall|i: int| 0 <= i < branches@.len() ==> #[trigger] bsv[i] == ms_view(branches@[i]),
                        b <= branches@.len(),
                        self.state() == st0,
                        self.wf(),
                        start == Some(st0.instrument),
                        !(compose1_branches(bsv, bsv.len() as int, ts, start) is Stuck),
                        compose1_branches(bsv, b as int, ts, start) == Outcome1::Done(comps_view(comps@)),
                    decreases branches@.len() - b,
                {
                    proof {
                        lemma_branches1_prefix(bsv, b + 1, bsv.len() as int, ts, start);
                        assert(decreases_to!(*p => *branches));
                        assert(decreases_to!(*branches => branches@));
                        assert(decreases_to!(branches@ => branches@[b as int]));
                        assert(bsv[b as int] == ms_view(branches@[b as int]));
                    }
                    let c = branches[b].compose_v1(ts, start);
                    match c {
                        Ok(c) => {
                            let ghost before = comps_view(comps@);
                            comps.push(c);
                            assert(comps_view(comps@) =~= before.push(c@));
                        },
                        Err(e) => {
                            return Err(e);
                        },
                    }
                    b = b + 1;
                }
                self.split_finish(comps, ts)
            },
            MusicPrimitive::Transform { transform, content } => {
                let inner = content.compose_v1(ts, Some(self.instrument));
                match inner {
                    Ok(inner) => {
                        self.transform_finish(*transform, inner, ts);
                        Ok(())
                    },
                    Err(e) => Err(e),
                }
            },
        }
    }
}

impl MusicString {
    /// Compose the music string with one track per instrument, in the order the instruments
    /// are first heard; a track may hold several lines at once. Notes, rests and changes of
    /// instrument or volume are played; the branches of a split must last equally long.
    pub fn compose_v1(&self, time_signature: TimeSignature, starting_instrument: Option<Instrument>) -> (r: Result<Composition, ComposeError>)
        requires
            !(compose1_spec(ms_view(*self), time_signature, starting_instrument) is Stuck),
        ensures
            composed1_as(compose1_spec(ms_view(*self), time_signature, starting_instrument), time_signature, r),
            r matches Ok(c) ==> instruments_distinct(c@.tracks),
        decreases *self,
    {
        let ghost ps = ms_view(*self);
        let instrument = match starting_instrument {
            Some(i) => i,
            None => Instrument::SineWave,
        };
        let mut composer = InstrumentComposer {
            tracks: Vec::new(),
            offset: Duration::zero(time_signature),
            instrument,
            volume: Volume(50),
        };
        assert(composer.state().tracks =~= Seq::<(Instrument, TrackV)>::empty());
        let mut i: usize = 0;
        while i < self.0.len()
            invariant
                ps == ms_view(*self),
                ps.len() == self.0@.len(),
                i <= ps.len(),
                composer.wf(),
                !(compose1_steps(ps, ps.len() as int, time_signature, starting_instrument) is Stuck),
                compose1_steps(ps, i as int, time_signature, starting_instrument) == Outcome1::Done(
                    composer.state(),
                ),
            decreases ps.len() - i,
        {
            proof {
                lemma_steps1_prefix(ps, i + 1, ps.len() as int, time_signature, starting_instrument);
                assert(decreases_to!(*self => self.0));
                assert(decreases_to!(self.0 => self.0@));
                assert(decreases_to!(self.0@ => self.0@[i as int]));
                assert(ps[i as int] == prim_view(self.0@[i as int]));
            }
            let res = composer.run_prim(&self.0[i], time_signature);
            match res {
                Ok(()) => {},
                Err(e) => {
                    return Err(e);
                },
            }
            i = i + 1;
        }
        let ghost m = composer.state().tracks;
        let tracks = into_tracks1(composer.tracks);
        let c = Composition { tracks, time_signature };
        assert(c@.tracks =~= result_comp1(composer.state(), time_signature).tracks);
        assert forall|i: int, j: int| 0 <= i < j < c@.tracks.len() implies (#[trigger] c@.tracks[i]).instrument
            != (#[trigger] c@.tracks[j]).instrument by {
            assert(c@.tracks[i] == m[i].1 && c@.tracks[j] == m[j].1);
            assert(m[i].1.instrument == m[i].0 && m[j].1.instrument == m[j].0);
            assert(m[i].0 != m[j].0);
        }
        Ok(c)
    }
}

} // verus!
