use vstd::prelude::*;
use crate::ratio::{Ratio, abs, sum_fits};
use crate::music_primitives::{
    Duration,
    dur_le,
    dur_lt,
    Pitch,
    TimeSignature,
    dur_minus,
    nv_plus,
    nv_times_integer,
    transposed_pitch,
    transpose_fits,
};
use crate::composition::{
    Composition,
    CompositionV,
    Event,
    TimeCompression,
    Track,
    TrackId,
    TrackV,
    Volume,
    comp_compress_fits,
    compress_fits,
    comp_compressed,
    comp_duration_fits,
    comp_shift_fits,
    comp_shifted,
    comp_transposed,
    comp_transposes_fit,
    composition_duration,
    dur_eq,
    event_end,
    events_scaled_by,
    lemma_compressed_durations,
    track_compressed,
    minus_fits,
    rest_at,
    shift_fits,
    span_fits,
    track_appended,
    append_base,
    append_fits,
    ends_fit,
    track_duration,
    track_shifted,
    tracks_view,
    zero_duration,
};
use crate::cfg::{
    ComposeError,
    MetaControl,
    MusicPrimitive,
    MusicString,
    MusicTransform,
    Performer,
    PrimV,
    SymbolV,
    Symbol,
    Terminal,
    TerminalNote,
    ms_view,
    prim_view,
    symbol_view,
};

verus! {

/// The state of a composition under way: the voices written so far, each under its number
/// in the order they were first written; the number of the current voice; the time reached;
/// and the performer.
pub struct ComposeState {
    pub tracks: Seq<(usize, TrackV)>,
    pub current: usize,
    pub offset: Duration,
    pub performer: Performer,
}

/// How composing ends: with a value, with branches of a split of different lengths, or with
/// a time or voice number beyond the machine integers.
pub enum Outcome<T> {
    Done(T),
    Mismatch,
    TooLarge,
}

/// Nothing written yet: voice 0, at the start of time.
pub open spec fn initial_state(ts: TimeSignature, perf: Performer) -> ComposeState {
    ComposeState { tracks: Seq::empty(), current: 0, offset: zero_duration(ts), performer: perf }
}

/// The position of the voice numbered `k`; -1 when there is none.
pub open spec fn find_key(m: Seq<(usize, TrackV)>, k: usize) -> int
    decreases m.len(),
{
    if m.len() == 0 {
        -1
    } else if m.last().0 == k {
        m.len() - 1
    } else {
        find_key(m.drop_last(), k)
    }
}

/// The largest voice number; 0 when there is none.
pub open spec fn max_key(m: Seq<(usize, TrackV)>) -> int
    decreases m.len(),
{
    if m.len() == 0 {
        0
    } else if m.last().0 > max_key(m.drop_last()) {
        m.last().0 as int
    } else {
        max_key(m.drop_last())
    }
}

/// A new voice for the performer's instrument holding one event or rest.
pub open spec fn new_voice(perf: Performer, e: Event, is_rest: bool) -> TrackV {
    TrackV {
        identifier: TrackId::Instrument(perf.instrument),
        instrument: perf.instrument,
        events: if is_rest {
            Seq::empty()
        } else {
            seq![e]
        },
        rests: if is_rest {
            seq![e]
        } else {
            Seq::empty()
        },
    }
}

/// The voice with one more event or rest at the end.
pub open spec fn with_event(t: TrackV, e: Event, is_rest: bool) -> TrackV {
    if is_rest {
        TrackV { rests: t.rests.push(e), ..t }
    } else {
        TrackV { events: t.events.push(e), ..t }
    }
}

/// `e` written into voice `id`, which is started for the performer if it does not exist.
pub open spec fn add_event_spec(
    m: Seq<(usize, TrackV)>,
    id: usize,
    e: Event,
    perf: Performer,
    is_rest: bool,
) -> Seq<(usize, TrackV)> {
    let j = find_key(m, id);
    if j < 0 {
        m.push((id, new_voice(perf, e, is_rest)))
    } else {
        m.update(j, (id, with_event(m[j].1, e, is_rest)))
    }
}

/// The track under a new identifier.
pub open spec fn relabeled(t: TrackV, id: usize) -> TrackV {
    TrackV { identifier: TrackId::Custom(id), ..t }
}

/// The number above every voice number in use: those of the voices written so far and that of
/// the current voice, which a change of instrument may have chosen before writing to it.
pub open spec fn fresh_key(m: Seq<(usize, TrackV)>, cur: usize) -> int {
    if cur > max_key(m) {
        cur + 1
    } else {
        max_key(m) + 1
    }
}

/// The tracks `ts` added as new voices one after the other, each numbered one past the
/// largest number in use so far (the current voice's `cur` among them); `None` when the
/// numbers run out.
pub open spec fn add_tracks(m: Seq<(usize, TrackV)>, ts: Seq<TrackV>, cur: usize) -> Option<Seq<(usize, TrackV)>>
    decreases ts.len(),
{
    if ts.len() == 0 {
        Some(m)
    } else {
        match add_tracks(m, ts.drop_last(), cur) {
            None => None,
            Some(m1) => {
                let id = fresh_key(m1, cur);
                if id > usize::MAX {
                    None
                } else {
                    Some(m1.push((id as usize, relabeled(ts.last(), id as usize))))
                }
            },
        }
    }
}

proof fn lemma_max_key(m: Seq<(usize, TrackV)>)
    ensures
        max_key(m) >= 0,
        forall|k: int| 0 <= k < m.len() ==> #[trigger] m[k].0 <= max_key(m),
    decreases m.len(),
{
    if m.len() > 0 {
        lemma_max_key(m.drop_last());
        assert forall|k: int| 0 <= k < m.len() implies #[trigger] m[k].0 <= max_key(m) by {
            if k < m.len() - 1 {
                assert(m[k] == m.drop_last()[k]);
            }
        }
    }
}

/// A voice that a split or a transform adds takes a number above that of every voice before
/// it and above the current voice's: no two voices share a number, and the current voice,
/// if it has not been started yet, never ends up in a voice the split or transform made.
pub proof fn lemma_added_voices_fresh(m: Seq<(usize, TrackV)>, ts: Seq<TrackV>, cur: usize)
    ensures
        add_tracks(m, ts, cur) matches Some(m2) ==> {
            &&& m2.len() == m.len() + ts.len()
            &&& m2.take(m.len() as int) == m
            &&& forall|k: int|
                m.len() <= k < m2.len() ==> (#[trigger] m2[k]).0 > cur && forall|j: int|
                    0 <= j < k ==> m2[j].0 < m2[k].0
        },
    decreases ts.len(),
{
    if ts.len() > 0 {
        lemma_added_voices_fresh(m, ts.drop_last(), cur);
        match add_tracks(m, ts.drop_last(), cur) {
            None => {},
            Some(m1) => {
                lemma_max_key(m1);
                let id = fresh_key(m1, cur);
                if id <= usize::MAX {
                    let m2 = m1.push((id as usize, relabeled(ts.last(), id as usize)));
                    assert(m2.take(m.len() as int) =~= m1.take(m.len() as int));
                    assert forall|k: int| m.len() <= k < m2.len() implies (#[trigger] m2[k]).0 > cur
                        && forall|j: int| 0 <= j < k ==> m2[j].0 < m2[k].0 by {
                        if k < m1.len() {
                            assert(m2[k] == m1[k]);
                            assert forall|j: int| 0 <= j < k implies m2[j].0 < m2[k].0 by {
                                assert(m2[j] == m1[j]);
                            }
                        } else {
                            assert forall|j: int| 0 <= j < k implies m2[j].0 < m2[k].0 by {
                                assert(m2[j] == m1[j]);
                                assert(m1[j].0 <= max_key(m1));
                            }
                        }
                    }
                }
            },
        }
    }
}

/// No two voices have the same number.
pub open spec fn keys_distinct(m: Seq<(usize, TrackV)>) -> bool {
    forall|i: int, j: int| 0 <= i < j < m.len() ==> #[trigger] m[i].0 != #[trigger] m[j].0
}

proof fn lemma_add_event_distinct(m: Seq<(usize, TrackV)>, id: usize, e: Event, perf: Performer, is_rest: bool)
    requires
        keys_distinct(m),
    ensures
        keys_distinct(add_event_spec(m, id, e, perf, is_rest)),
{
    lemma_find_key(m, id);
    let r = add_event_spec(m, id, e, perf, is_rest);
    let j = find_key(m, id);
    assert forall|a: int, b: int| 0 <= a < b < r.len() implies #[trigger] r[a].0 != #[trigger] r[b].0 by {
        if j < 0 {
            if b == m.len() {
                assert(r[a] == m[a]);
            } else {
                assert(r[a] == m[a] && r[b] == m[b]);
            }
        } else {
            assert(r[a].0 == m[a].0 && r[b].0 == m[b].0);
        }
    }
}

proof fn lemma_push_fresh_distinct(m: Seq<(usize, TrackV)>, p: (usize, TrackV))
    requires
        keys_distinct(m),
        p.0 > max_key(m),
    ensures
        keys_distinct(m.push(p)),
{
    lemma_max_key(m);
    let r = m.push(p);
    assert forall|a: int, b: int| 0 <= a < b < r.len() implies #[trigger] r[a].0 != #[trigger] r[b].0 by {
        assert(r[a] == m[a]);
        if b < m.len() {
            assert(r[b] == m[b]);
        }
    }
}

proof fn lemma_add_tracks_distinct(m: Seq<(usize, TrackV)>, ts: Seq<TrackV>, cur: usize)
    requires
        keys_distinct(m),
    ensures
        add_tracks(m, ts, cur) matches Some(m2) ==> keys_distinct(m2),
    decreases ts.len(),
{
    if ts.len() > 0 {
        lemma_add_tracks_distinct(m, ts.drop_last(), cur);
        if let Some(m1) = add_tracks(m, ts.drop_last(), cur) {
            let id = fresh_key(m1, cur);
            if id <= usize::MAX {
                lemma_push_fresh_distinct(m1, (id as usize, relabeled(ts.last(), id as usize)));
            }
        }
    }
}

proof fn lemma_add_comps_distinct(m: Seq<(usize, TrackV)>, cs: Seq<CompositionV>, cur: usize)
    requires
        keys_distinct(m),
    ensures
        add_comps(m, cs, cur) matches Some(m2) ==> keys_distinct(m2),
    decreases cs.len(),
{
    if cs.len() > 0 {
        lemma_add_comps_distinct(m, cs.drop_last(), cur);
        if let Some(m1) = add_comps(m, cs.drop_last(), cur) {
            lemma_add_tracks_distinct(m1, cs.last().tracks, cur);
        }
    }
}

/// The tracks of each composition added as new voices, composition after composition.
pub open spec fn add_comps(m: Seq<(usize, TrackV)>, cs: Seq<CompositionV>, cur: usize) -> Option<Seq<(usize, TrackV)>>
    decreases cs.len(),
{
    if cs.len() == 0 {
        Some(m)
    } else {
        match add_comps(m, cs.drop_last(), cur) {
            None => None,
            Some(m1) => add_tracks(m1, cs.last().tracks, cur),
        }
    }
}

/// The voices of a finished composition, in the order they were first written.
pub open spec fn result_comp(st: ComposeState, ts: TimeSignature) -> CompositionV {
    CompositionV { tracks: st.tracks.map_values(|p: (usize, TrackV)| p.1), time_signature: ts }
}

/// The time moved on by `d`.
pub open spec fn advance(st: ComposeState, d: Duration) -> Outcome<ComposeState> {
    if sum_fits(st.offset.value.0, d.value.0) {
        Outcome::Done(
            ComposeState {
                offset: Duration {
                    value: nv_plus(st.offset.value, d.value),
                    time_signature: st.offset.time_signature,
                },
                ..st
            },
        )
    } else {
        Outcome::TooLarge
    }
}

/// A duration scaled by an integer, in its own time signature.
pub open spec fn dur_times_int(d: Duration, t: int) -> Duration {
    Duration { value: nv_times_integer(d.value, t), time_signature: d.time_signature }
}

/// The event that plays from the current time for `duration` with the performer's volume.
pub open spec fn played(st: ComposeState, duration: Duration, pitch: Pitch) -> Event {
    Event { start: st.offset, duration, volume: st.performer.volume, pitch }
}

/// One symbol composed: a non-terminal takes no time; a meta control changes the performer
/// (a new instrument also starts a new voice); a sound is written into the current voice and
/// takes its duration; moving the pitch takes no time.
pub open spec fn symbol_step(s: SymbolV, ts: TimeSignature, st: ComposeState) -> Outcome<ComposeState> {
    let perf = st.performer;
    match s {
        SymbolV::NT(_) => advance(st, zero_duration(ts)),
        SymbolV::T(t) => match t {
            Terminal::Meta(MetaControl::ChangeInstrument(i)) => {
                let id = max_key(st.tracks) + 1;
                if id > usize::MAX {
                    Outcome::TooLarge
                } else {
                    advance(
                        ComposeState {
                            current: id as usize,
                            performer: Performer { instrument: i, ..perf },
                            ..st
                        },
                        zero_duration(ts),
                    )
                }
            },
            Terminal::Meta(MetaControl::ChangeVolume(v)) => advance(
                ComposeState { performer: Performer { volume: v, ..perf }, ..st },
                zero_duration(ts),
            ),
            Terminal::AbsoluteSound { duration, note } => {
                let is_rest = note is Rest;
                let pitch = match note {
                    TerminalNote::Note { pitch } => pitch,
                    TerminalNote::Rest => Pitch::spec_new(0, 0),
                };
                advance(
                    ComposeState {
                        tracks: add_event_spec(st.tracks, st.current, played(st, duration, pitch), perf, is_rest),
                        ..st
                    },
                    duration,
                )
            },
            Terminal::CurrentSound { duration } => advance(
                ComposeState {
                    tracks: add_event_spec(st.tracks, st.current, played(st, duration, perf.pitch), perf, false),
                    ..st
                },
                duration,
            ),
            Terminal::MovePitch { semitones } => if transpose_fits(
                perf.pitch.spec_octave() as int,
                perf.pitch.spec_note_num() as int,
                semitones as int,
            ) {
                advance(
                    ComposeState {
                        performer: Performer {
                            pitch: transposed_pitch(perf.pitch, semitones as int),
                            ..perf
                        },
                        ..st
                    },
                    zero_duration(ts),
                )
            } else {
                Outcome::TooLarge
            },
        },
    }
}

/// The composed branches of a split, each moved to the current time, written as new voices.
/// They must all last equally long, and the split takes that long; a current voice that has
/// already been started rests meanwhile, so that its notes and rests leave no gap.
pub open spec fn split_step(comps: Seq<CompositionV>, ts: TimeSignature, st: ComposeState) -> Outcome<ComposeState> {
    let shifted = comps.map_values(|c: CompositionV| comp_shifted(c, st.offset, true));
    if !(forall|k: int| 0 <= k < comps.len() ==> comp_shift_fits(#[trigger] comps[k], st.offset)) {
        Outcome::TooLarge
    } else if !(forall|k: int| 0 <= k < comps.len() ==> comp_duration_fits(#[trigger] shifted[k])) {
        Outcome::TooLarge
    } else if comps.len() == 0 {
        advance(st, zero_duration(ts))
    } else if !(forall|k: int|
        0 <= k < comps.len() ==> composition_duration(#[trigger] shifted[k]) == composition_duration(
            shifted[0],
        )) {
        Outcome::Mismatch
    } else {
        match add_comps(st.tracks, shifted, st.current) {
            None => Outcome::TooLarge,
            Some(m) => if find_key(st.tracks, st.current) >= 0 {
                rest_while(st, m, composition_duration(shifted[0]))
            } else {
                advance(ComposeState { tracks: m, ..st }, composition_duration(shifted[0]))
            },
        }
    }
}

/// `t` played `k` times one after the other, each time followed by a rest of the length by
/// which the whole repeated passage outlasts it, as a new voice numbered `id`.
pub open spec fn repeat_track(
    t: TrackV,
    k: nat,
    ts: TimeSignature,
    single: Duration,
    td: Duration,
    id: usize,
) -> Option<TrackV>
    decreases k,
{
    if k == 0 {
        Some(
            TrackV {
                identifier: TrackId::Custom(id),
                instrument: t.instrument,
                events: Seq::empty(),
                rests: Seq::empty(),
            },
        )
    } else {
        match repeat_track(t, (k - 1) as nat, ts, single, td, id) {
            None => None,
            Some(r) => if !append_fits(r, t, ts) {
                None
            } else {
                let r1 = track_appended(r, t, ts);
                if !ends_fit(r1) || !minus_fits(single, td) {
                    None
                } else {
                    Some(
                        TrackV {
                            rests: r1.rests.push(rest_at(append_base(r1, ts), dur_minus(single, td))),
                            ..r1
                        },
                    )
                }
            },
        }
    }
}

/// Each of the tracks `trs` repeated `num` times, moved to `off` and added as a new voice.
pub open spec fn repeat_all(
    m: Seq<(usize, TrackV)>,
    trs: Seq<TrackV>,
    cur: usize,
    num: nat,
    ts: TimeSignature,
    single: Duration,
    off: Duration,
) -> Option<Seq<(usize, TrackV)>>
    decreases trs.len(),
{
    if trs.len() == 0 {
        Some(m)
    } else {
        match repeat_all(m, trs.drop_last(), cur, num, ts, single, off) {
            None => None,
            Some(m1) => {
                let t = trs.last();
                let id = fresh_key(m1, cur);
                if id > usize::MAX || !span_fits(t) {
                    None
                } else {
                    match repeat_track(t, num, ts, single, track_duration(t, ts), id as usize) {
                        None => None,
                        Some(rep) => if shift_fits(rep, off) {
                            Some(m1.push((id as usize, track_shifted(rep, off, true))))
                        } else {
                            None
                        },
                    }
                }
            },
        }
    }
}

/// The current voice rests while a transformed passage, written as new voices, plays for
/// `d`.
pub open spec fn rest_while(st: ComposeState, m: Seq<(usize, TrackV)>, d: Duration) -> Outcome<ComposeState> {
    advance(
        ComposeState {
            tracks: add_event_spec(m, st.current, played(st, d, st.performer.pitch), st.performer, true),
            ..st
        },
        d,
    )
}

/// A transformed passage, composed on its own, moved to the current time and written as new
/// voices.
pub open spec fn transform_step(
    t: MusicTransform,
    inner: CompositionV,
    ts: TimeSignature,
    st: ComposeState,
) -> Outcome<ComposeState> {
    let off = st.offset;
    match t {
        MusicTransform::Transpose { semitones } => {
            let tr = comp_transposed(inner, semitones as int);
            if !comp_transposes_fit(inner, semitones as int) || !comp_duration_fits(tr)
                || !comp_shift_fits(tr, off) {
                Outcome::TooLarge
            } else {
                match add_tracks(st.tracks, comp_shifted(tr, off, true).tracks, st.current) {
                    None => Outcome::TooLarge,
                    Some(m) => rest_while(st, m, composition_duration(tr)),
                }
            }
        },
        MusicTransform::Compression { factor } => {
            let cm = comp_compressed(inner, factor);
            let sh = comp_shifted(cm, off, true);
            if !comp_compress_fits(inner, factor) || !comp_shift_fits(cm, off)
                || !comp_duration_fits(sh) {
                Outcome::TooLarge
            } else {
                match add_tracks(st.tracks, sh.tracks, st.current) {
                    None => Outcome::TooLarge,
                    Some(m) => rest_while(st, m, composition_duration(sh)),
                }
            }
        },
        MusicTransform::Repeat { num } => {
            if !comp_duration_fits(inner) {
                Outcome::TooLarge
            } else {
                let single = composition_duration(inner);
                match repeat_all(st.tracks, inner.tracks, st.current, num as nat, ts, single, off) {
                    None => Outcome::TooLarge,
                    Some(m) => if single.value.0.n() * ((num as u32) as int) <= u32::MAX {
                        rest_while(st, m, dur_times_int(single, (num as u32) as int))
                    } else {
                        Outcome::TooLarge
                    },
                }
            }
        },
    }
}

/// The first `n` primitives of `ps` composed from the start of time with the performer
/// `perf`.
pub open spec fn compose_steps(ps: Seq<PrimV>, n: int, ts: TimeSignature, perf: Performer) -> Outcome<ComposeState>
    decreases ps, n,
{
    if n <= 0 || n > ps.len() {
        Outcome::Done(initial_state(ts, perf))
    } else {
        match compose_steps(ps, n - 1, ts, perf) {
            Outcome::Done(st) => step(ps[n - 1], ts, st),
            Outcome::Mismatch => Outcome::Mismatch,
            Outcome::TooLarge => Outcome::TooLarge,
        }
    }
}

/// The first `k` branches of a split, each composed on its own with the performer `perf`.
pub open spec fn compose_branches(bs: Seq<Seq<PrimV>>, k: int, ts: TimeSignature, perf: Performer) -> Outcome<Seq<CompositionV>>
    decreases bs, k,
{
    if k <= 0 || k > bs.len() {
        Outcome::Done(Seq::empty())
    } else {
        match compose_branches(bs, k - 1, ts, perf) {
            Outcome::Done(cs) => match compose_steps(bs[k - 1], bs[k - 1].len() as int, ts, perf) {
                Outcome::Done(st) => Outcome::Done(cs.push(result_comp(st, ts))),
                Outcome::Mismatch => Outcome::Mismatch,
                Outcome::TooLarge => Outcome::TooLarge,
            },
            Outcome::Mismatch => Outcome::Mismatch,
            Outcome::TooLarge => Outcome::TooLarge,
        }
    }
}

/// One primitive composed.
pub open spec fn step(p: PrimV, ts: TimeSignature, st: ComposeState) -> Outcome<ComposeState>
    decreases p, 0int,
{
    match p {
        PrimV::Simple(s) => symbol_step(s, ts, st),
        PrimV::Split(bs) => match compose_branches(bs, bs.len() as int, ts, st.performer) {
            Outcome::Done(cs) => split_step(cs, ts, st),
            Outcome::Mismatch => Outcome::Mismatch,
            Outcome::TooLarge => Outcome::TooLarge,
        },
        PrimV::Transform(t, content) => match compose_steps(content, content.len() as int, ts, st.performer) {
            Outcome::Done(ist) => transform_step(t, result_comp(ist, ts), ts, st),
            Outcome::Mismatch => Outcome::Mismatch,
            Outcome::TooLarge => Outcome::TooLarge,
        },
    }
}

/// A whole music string composed from the start of time with the performer `perf`.
pub open spec fn compose_spec(ps: Seq<PrimV>, ts: TimeSignature, perf: Performer) -> Outcome<ComposeState> {
    compose_steps(ps, ps.len() as int, ts, perf)
}

proof fn lemma_repeat_all_distinct(
    m: Seq<(usize, TrackV)>,
    trs: Seq<TrackV>,
    cur: usize,
    num: nat,
    ts: TimeSignature,
    single: Duration,
    off: Duration,
)
    requires
        keys_distinct(m),
    ensures
        repeat_all(m, trs, cur, num, ts, single, off) matches Some(m2) ==> keys_distinct(m2),
    decreases trs.len(),
{
    if trs.len() > 0 {
        lemma_repeat_all_distinct(m, trs.drop_last(), cur, num, ts, single, off);
        if let Some(m1) = repeat_all(m, trs.drop_last(), cur, num, ts, single, off) {
            let t = trs.last();
            let id = fresh_key(m1, cur);
            if id <= usize::MAX && span_fits(t) {
                if let Some(rep) = repeat_track(t, num, ts, single, track_duration(t, ts), id as usize) {
                    lemma_push_fresh_distinct(m1, (id as usize, track_shifted(rep, off, true)));
                }
            }
        }
    }
}

proof fn lemma_step_distinct(p: PrimV, ts: TimeSignature, st: ComposeState)
    requires
        keys_distinct(st.tracks),
    ensures
        step(p, ts, st) matches Outcome::Done(st2) ==> keys_distinct(st2.tracks),
{
    let perf = st.performer;
    match p {
        PrimV::Simple(s) => {
            if let SymbolV::T(t) = s {
                match t {
                    Terminal::AbsoluteSound { duration, note } => {
                        let pitch = match note {
                            TerminalNote::Note { pitch } => pitch,
                            TerminalNote::Rest => Pitch::spec_new(0, 0),
                        };
                        lemma_add_event_distinct(
                            st.tracks,
                            st.current,
                            played(st, duration, pitch),
                            perf,
                            note is Rest,
                        );
                    },
                    Terminal::CurrentSound { duration } => {
                        lemma_add_event_distinct(st.tracks, st.current, played(st, duration, perf.pitch), perf, false);
                    },
                    _ => {},
                }
            }
        },
        PrimV::Split(bs) => {
            if let Outcome::Done(cs) = compose_branches(bs, bs.len() as int, ts, st.performer) {
                let shifted = cs.map_values(|c: CompositionV| comp_shifted(c, st.offset, true));
                lemma_add_comps_distinct(st.tracks, shifted, st.current);
                if let Some(m) = add_comps(st.tracks, shifted, st.current) {
                    if cs.len() > 0 {
                        lemma_add_event_distinct(
                            m,
                            st.current,
                            played(st, composition_duration(shifted[0]), perf.pitch),
                            perf,
                            true,
                        );
                    }
                }
            }
        },
        PrimV::Transform(t, content) => {
            if let Outcome::Done(ist) = compose_steps(content, content.len() as int, ts, st.performer) {
                let inner = result_comp(ist, ts);
                let off = st.offset;
                match t {
                    MusicTransform::Transpose { semitones } => {
                        let tr = comp_transposed(inner, semitones as int);
                        lemma_add_tracks_distinct(st.tracks, comp_shifted(tr, off, true).tracks, st.current);
                        if let Some(m) = add_tracks(st.tracks, comp_shifted(tr, off, true).tracks, st.current) {
                            lemma_add_event_distinct(
                                m,
                                st.current,
                                played(st, composition_duration(tr), perf.pitch),
                                perf,
                                true,
                            );
                        }
                    },
                    MusicTransform::Compression { factor } => {
                        let sh = comp_shifted(comp_compressed(inner, factor), off, true);
                        lemma_add_tracks_distinct(st.tracks, sh.tracks, st.current);
                        if let Some(m) = add_tracks(st.tracks, sh.tracks, st.current) {
                            lemma_add_event_distinct(
                                m,
                                st.current,
                                played(st, composition_duration(sh), perf.pitch),
                                perf,
                                true,
                            );
                        }
                    },
                    MusicTransform::Repeat { num } => {
                        let single = composition_duration(inner);
                        lemma_repeat_all_distinct(st.tracks, inner.tracks, st.current, num as nat, ts, single, off);
                        if let Some(m) = repeat_all(st.tracks, inner.tracks, st.current, num as nat, ts, single, off) {
                            lemma_add_event_distinct(
                                m,
                                st.current,
                                played(st, dur_times_int(single, (num as u32) as int), perf.pitch),
                                perf,
                                true,
                            );
                        }
                    },
                }
            }
        },
    }
}

proof fn lemma_steps_distinct(ps: Seq<PrimV>, n: int, ts: TimeSignature, perf: Performer)
    ensures
        compose_steps(ps, n, ts, perf) matches Outcome::Done(st) ==> keys_distinct(st.tracks),
    decreases n,
{
    if 0 < n <= ps.len() {
        lemma_steps_distinct(ps, n - 1, ts, perf);
        if let Outcome::Done(st) = compose_steps(ps, n - 1, ts, perf) {
            lemma_step_distinct(ps[n - 1], ts, st);
        }
    }
}

/// Composing by voice gives every voice a number of its own: the voices of the finished
/// state have distinct numbers.
pub proof fn lemma_composed_voices_distinct(ps: Seq<PrimV>, ts: TimeSignature, perf: Performer)
    ensures
        compose_spec(ps, ts, perf) matches Outcome::Done(st) ==> keys_distinct(st.tracks),
{
    lemma_steps_distinct(ps, ps.len() as int, ts, perf);
}

// ----------------------------------------------------------------------------------------
// Voices that follow one another in time.
// ----------------------------------------------------------------------------------------

/// The notes and the rests of a voice together.
pub open spec fn items_of(t: TrackV) -> Seq<Event> {
    t.events + t.rests
}

/// An item's start and end are fractions with positive denominators.
pub open spec fn item_times_ok(e: Event) -> bool {
    e.start.value.0.d() > 0 && event_end(e).value.0.d() > 0
}

/// The items follow one another without overlap or gap: no two overlap, and each one is
/// either followed by one that starts where it ends or ends last of all.
pub open spec fn back_to_back_seq(s: Seq<Event>) -> bool {
    &&& forall|i: int| 0 <= i < s.len() ==> item_times_ok(#[trigger] s[i])
    &&& forall|i: int, j: int|
        0 <= i < s.len() && 0 <= j < s.len() && i != j ==> dur_le(event_end(#[trigger] s[i]), #[trigger] s[j].start)
            || dur_le(event_end(s[j]), s[i].start)
    &&& forall|i: int|
        #![trigger s[i]]
        0 <= i < s.len() ==> (exists|j: int| 0 <= j < s.len() && dur_eq(#[trigger] s[j].start, event_end(s[i])))
            || (forall|j: int| 0 <= j < s.len() ==> dur_le(event_end(#[trigger] s[j]), event_end(s[i])))
}

/// A voice whose notes and rests partition its span: back to back, without overlap or gap.
pub open spec fn back_to_back(t: TrackV) -> bool {
    back_to_back_seq(items_of(t))
}

/// The items end no later than `off`, and one of them ends at `off`.
pub open spec fn ends_at_seq(s: Seq<Event>, off: Duration) -> bool {
    &&& s.len() > 0
    &&& forall|i: int| 0 <= i < s.len() ==> dur_le(event_end(#[trigger] s[i]), off)
    &&& exists|i: int| 0 <= i < s.len() && dur_eq(event_end(#[trigger] s[i]), off)
}

/// What composing keeps of the voices it writes itself (those named by an instrument): each is
/// back to back, and the current one, once started, reaches up to the current time.
pub open spec fn voices_ok(st: ComposeState) -> bool {
    &&& st.offset.value.0.d() > 0
    &&& forall|k: int|
        0 <= k < st.tracks.len() && (#[trigger] st.tracks[k]).1.identifier is Instrument ==> back_to_back(
            st.tracks[k].1,
        )
    &&& find_key(st.tracks, st.current) >= 0 ==> {
        let t = st.tracks[find_key(st.tracks, st.current)].1;
        t.identifier is Instrument && ends_at_seq(items_of(t), st.offset)
    }
}

proof fn lemma_le_facts(a: Duration, b: Duration, c: Duration)
    requires
        a.value.0.d() > 0,
        b.value.0.d() > 0,
        c.value.0.d() > 0,
    ensures
        dur_le(a, a),
        dur_eq(a, b) ==> dur_eq(b, a) && dur_le(a, b) && dur_le(b, a),
        dur_le(a, b) && dur_le(b, a) ==> dur_eq(a, b),
        dur_le(a, b) && dur_le(b, c) ==> dur_le(a, c),
        dur_le(a, b) && dur_eq(b, c) ==> dur_le(a, c),
        dur_eq(a, b) && dur_eq(b, c) ==> dur_eq(a, c),
{
    let (an, ad, bn, bd, cn, cd) = (a.value.0.n(), a.value.0.d(), b.value.0.n(), b.value.0.d(), c.value.0.n(), c.value.0.d());
    assert(an * bd <= bn * ad && bn * cd <= cn * bd ==> an * cd <= cn * ad) by (nonlinear_arith)
        requires
            ad > 0,
            bd > 0,
            cd > 0,
    ;
    assert(an * bd <= bn * ad && bn * cd == cn * bd ==> an * cd <= cn * ad) by (nonlinear_arith)
        requires
            ad > 0,
            bd > 0,
            cd > 0,
    ;
    assert(an * bd == bn * ad && bn * cd == cn * bd ==> an * cd == cn * ad) by (nonlinear_arith)
        requires
            ad > 0,
            bd > 0,
            cd > 0,
    ;
}

/// Inserting `x` at position `p` of items that end at `off`, when `x` starts at `off` and ends
/// no earlier, keeps them back to back and makes them end where `x` ends.
proof fn lemma_insert_item(s: Seq<Event>, s2: Seq<Event>, p: int, x: Event, off: Duration)
    requires
        back_to_back_seq(s),
        s.len() == 0 || ends_at_seq(s, off),
        0 <= p <= s.len(),
        s2.len() == s.len() + 1,
        s2[p] == x,
        forall|k: int| 0 <= k < p ==> s2[k] == s[k],
        forall|k: int| p < k < s2.len() ==> s2[k] == s[k - 1],
        x.start == off,
        item_times_ok(x),
        dur_le(off, event_end(x)),
    ensures
        back_to_back_seq(s2),
        ends_at_seq(s2, event_end(x)),
{
    let e = event_end(x);
    assert forall|k: int| 0 <= k < s2.len() implies #[trigger] s2[k] == x || (k < p && s2[k] == s[k]) || (
    k > p && s2[k] == s[k - 1]) by {}
    assert forall|k: int| 0 <= k < s.len() implies dur_le(event_end(#[trigger] s[k]), e) by {
        assert(dur_le(event_end(s[k]), off));
        lemma_le_facts(event_end(s[k]), off, e);
    }
    assert forall|i: int| 0 <= i < s2.len() implies item_times_ok(#[trigger] s2[i]) by {
        if i < p {
            assert(s2[i] == s[i]);
        } else if i > p {
            assert(s2[i] == s[i - 1]);
        }
    }
    assert forall|i: int, j: int|
        0 <= i < s2.len() && 0 <= j < s2.len() && i != j implies dur_le(event_end(#[trigger] s2[i]), #[trigger] s2[j].start)
        || dur_le(event_end(s2[j]), s2[i].start) by {
        let ii = if i < p { i } else { i - 1 };
        let jj = if j < p { j } else { j - 1 };
        if i == p {
            assert(s2[j] == s[jj]);
            assert(dur_le(event_end(s[jj]), off));
        } else if j == p {
            assert(s2[i] == s[ii]);
            assert(dur_le(event_end(s[ii]), off));
        } else {
            assert(s2[i] == s[ii]);
            assert(s2[j] == s[jj]);
            assert(ii != jj);
        }
    }
    assert forall|i: int| #![trigger s2[i]] 0 <= i < s2.len() implies (exists|j: int|
        0 <= j < s2.len() && dur_eq(#[trigger] s2[j].start, event_end(s2[i]))) || (forall|j: int|
        0 <= j < s2.len() ==> dur_le(event_end(#[trigger] s2[j]), event_end(s2[i]))) by {
        if i == p {
            assert forall|j: int| 0 <= j < s2.len() implies dur_le(event_end(#[trigger] s2[j]), event_end(s2[i])) by {
                if j == p {
                    lemma_le_facts(e, e, e);
                } else if j < p {
                    assert(s2[j] == s[j]);
                } else {
                    assert(s2[j] == s[j - 1]);
                }
            }
        } else {
            let ii = if i < p { i } else { i - 1 };
            assert(s2[i] == s[ii]);
            let ei = event_end(s[ii]);
            if exists|j: int| 0 <= j < s.len() && dur_eq(#[trigger] s[j].start, ei) {
                let j = choose|j: int| 0 <= j < s.len() && dur_eq(#[trigger] s[j].start, ei);
                let jj = if j < p { j } else { j + 1 };
                assert(s2[jj] == s[j]);
            } else {
                assert(forall|j: int| 0 <= j < s.len() ==> dur_le(event_end(#[trigger] s[j]), ei));
                let w = choose|w: int| 0 <= w < s.len() && dur_eq(event_end(#[trigger] s[w]), off);
                assert(dur_le(event_end(s[w]), ei));
                assert(dur_le(ei, off));
                lemma_le_facts(event_end(s[w]), off, ei);
                lemma_le_facts(off, event_end(s[w]), ei);
                lemma_le_facts(ei, off, off);
                assert(dur_eq(ei, off));
                lemma_le_facts(off, ei, off);
                assert(dur_eq(s2[p].start, event_end(s2[i])));
            }
        }
    }
    lemma_le_facts(e, e, e);
    assert(dur_eq(event_end(s2[p]), e));
}

/// The time moved on by `d`, when the sum fits: a fraction with a positive denominator, no
/// earlier than before, and equal to it when `d` is nothing.
proof fn lemma_plus_facts(a: Duration, d: Duration)
    requires
        a.value.0.d() > 0,
        d.value.0.d() > 0,
        sum_fits(a.value.0, d.value.0),
    ensures
        nv_plus(a.value, d.value).0.d() > 0,
        dur_le(a, Duration { value: nv_plus(a.value, d.value), time_signature: a.time_signature }),
        d.value.0.n() == 0 ==> dur_eq(
            a,
            Duration { value: nv_plus(a.value, d.value), time_signature: a.time_signature },
        ),
{
    a.value.0.lemma_parts();
    d.value.0.lemma_parts();
    let (an, ad, dn, dd) = (a.value.0.n(), a.value.0.d(), d.value.0.n(), d.value.0.d());
    let x = an * dd + dn * ad;
    let y = ad * dd;
    assert(y > 0 && x >= 0) by (nonlinear_arith)
        requires
            ad > 0,
            dd > 0,
            an >= 0,
            dn >= 0,
            y == ad * dd,
            x == an * dd + dn * ad,
    ;
    Ratio::lemma_lowest(x, y);
    let r = Ratio::lowest(x, y);
    let (rn, rd) = (r.n(), r.d());
    assert(an * rd <= rn * ad) by (nonlinear_arith)
        requires
            rn * y == x * rd,
            x == an * dd + dn * ad,
            y == ad * dd,
            y > 0,
            ad > 0,
            dd > 0,
            rd > 0,
            an >= 0,
            dn >= 0,
    {
        assert(rn * ad * y == ad * x * rd);
        assert(ad * x * rd == an * rd * y + dn * ad * ad * rd);
        assert(dn * ad * ad * rd >= 0);
        assert((rn * ad - an * rd) * y >= 0);
    }
    if dn == 0 {
        assert(an * rd == rn * ad) by (nonlinear_arith)
            requires
                rn * y == x * rd,
                x == an * dd + dn * ad,
                dn == 0,
                y == ad * dd,
                dd > 0,
        {
            assert((rn * ad - an * rd) * dd == 0);
        }
    }
}

/// Items that end at `a` end at every time equal to `a`.
proof fn lemma_ends_at_move(s: Seq<Event>, a: Duration, b: Duration)
    requires
        back_to_back_seq(s),
        ends_at_seq(s, a),
        dur_eq(a, b),
        a.value.0.d() > 0,
        b.value.0.d() > 0,
    ensures
        ends_at_seq(s, b),
{
    assert forall|i: int| 0 <= i < s.len() implies dur_le(event_end(#[trigger] s[i]), b) by {
        assert(item_times_ok(s[i]));
        lemma_le_facts(event_end(s[i]), a, b);
        lemma_le_facts(a, b, b);
    }
    let w = choose|i: int| 0 <= i < s.len() && dur_eq(event_end(#[trigger] s[i]), a);
    assert(item_times_ok(s[w]));
    lemma_le_facts(event_end(s[w]), a, b);
    assert(dur_eq(event_end(s[w]), b));
}

/// Moving the time on keeps the voices in order when no voice is under way, or when the time
/// does not move.
proof fn lemma_advance_keeps(st: ComposeState, d: Duration)
    requires
        voices_ok(st),
        d.value.0.d() > 0,
        find_key(st.tracks, st.current) < 0 || d.value.0.n() == 0,
    ensures
        advance(st, d) matches Outcome::Done(st2) ==> voices_ok(st2),
{
    if sum_fits(st.offset.value.0, d.value.0) {
        lemma_plus_facts(st.offset, d);
        let st2 = advance(st, d)->Done_0;
        lemma_find_key(st.tracks, st.current);
        if find_key(st.tracks, st.current) >= 0 {
            let t = st.tracks[find_key(st.tracks, st.current)].1;
            assert(back_to_back(t));
            lemma_ends_at_move(items_of(t), st.offset, st2.offset);
        }
    }
}

/// The position of a voice is found again after that voice changes, or after it is added.
proof fn lemma_find_key_after(m: Seq<(usize, TrackV)>, id: usize, t: TrackV)
    ensures
        find_key(m, id) >= 0 ==> find_key(m.update(find_key(m, id), (id, t)), id) == find_key(m, id),
        find_key(m.push((id, t)), id) == m.len(),
        forall|k: usize| k != id ==> find_key(m.push((id, t)), k) == find_key(m, k),
{
    let m2 = m.push((id, t));
    assert(m2.drop_last() =~= m);
    assert forall|k: usize| k != id implies find_key(m2, k) == find_key(m, k) by {
        assert(m2.drop_last() =~= m);
    }
    let j = find_key(m, id);
    lemma_find_key(m, id);
    if j >= 0 {
        let m1 = m.update(j, (id, t));
        lemma_find_key(m1, id);
        let f = find_key(m1, id);
        assert(m1[j].0 == id);
        if f > j {
            assert(m1[f] == m[f]);
            assert(m[f].0 != id);
        }
        assert(f == j);
    }
}

/// A note or a rest written into the current voice at the current time, with the time then
/// moved on past it, keeps the voices in order.
proof fn lemma_add_item_keeps(st: ComposeState, d: Duration, pitch: Pitch, is_rest: bool)
    requires
        voices_ok(st),
        d.value.0.d() > 0,
    ensures
        advance(
            ComposeState {
                tracks: add_event_spec(st.tracks, st.current, played(st, d, pitch), st.performer, is_rest),
                ..st
            },
            d,
        ) matches Outcome::Done(st2) ==> voices_ok(st2),
{
    let m = st.tracks;
    let cur = st.current;
    let x = played(st, d, pitch);
    if sum_fits(st.offset.value.0, d.value.0) {
        lemma_plus_facts(st.offset, d);
        assert(item_times_ok(x));
        let m2 = add_event_spec(m, cur, x, st.performer, is_rest);
        let j = find_key(m, cur);
        lemma_find_key(m, cur);
        let jj = if j < 0 { m.len() as int } else { j };
        if j < 0 {
            let t2 = new_voice(st.performer, x, is_rest);
            lemma_find_key_after(m, cur, t2);
            let s2 = items_of(t2);
            assert(s2 =~= seq![x]);
            lemma_insert_item(Seq::empty(), s2, 0, x, st.offset);
            assert(m2[jj] == (cur, t2));
        } else {
            let t = m[j].1;
            let t2 = with_event(t, x, is_rest);
            lemma_find_key_after(m, cur, t2);
            assert(back_to_back(m[j].1));
            let s = items_of(t);
            let s2 = items_of(t2);
            let p = if is_rest { s.len() as int } else { t.events.len() as int };
            assert(s2.len() == s.len() + 1);
            assert forall|k: int| 0 <= k < p implies s2[k] == s[k] by {}
            assert forall|k: int| p < k < s2.len() implies s2[k] == s[k - 1] by {}
            lemma_insert_item(s, s2, p, x, st.offset);
            assert(m2[jj] == (cur, t2));
        }
        assert forall|k: int|
            0 <= k < m2.len() && (#[trigger] m2[k]).1.identifier is Instrument implies back_to_back(m2[k].1) by {
            if k != jj {
                assert(m2[k] == m[k]);
            }
        }
    }
}

/// Voices added under new numbers with identifiers of their own keep the voices written so
/// far in order.
proof fn lemma_extend_custom(st: ComposeState, m: Seq<(usize, TrackV)>)
    requires
        voices_ok(st),
        custom_extension(st.tracks, m, st.current),
    ensures
        voices_ok(ComposeState { tracks: m, ..st }),
        find_key(m, st.current) == find_key(st.tracks, st.current),
    decreases m.len(),
{
    let n = st.tracks.len() as int;
    assert forall|k: int| 0 <= k < n implies m[k] == st.tracks[k] by {
        assert(m.take(n)[k] == m[k]);
    }
    if m.len() > n {
        let m1 = m.drop_last();
        assert(m1.take(n) =~= st.tracks);
        lemma_extend_custom(st, m1);
        assert(m.last().0 != st.current);
        assert(m.drop_last() == m1);
    } else {
        assert(m =~= st.tracks);
    }
    assert forall|k: int|
        0 <= k < m.len() && (#[trigger] m[k]).1.identifier is Instrument implies back_to_back(m[k].1) by {
        assert(k < n);
        assert(m[k] == st.tracks[k]);
    }
    lemma_find_key(st.tracks, st.current);
    let j = find_key(st.tracks, st.current);
    if j >= 0 {
        assert(m[j] == st.tracks[j]);
    }
}

/// The voices a split or a transform adds follow those written before, under numbers above
/// the current voice's, with identifiers of their own.
pub open spec fn custom_extension(m: Seq<(usize, TrackV)>, m2: Seq<(usize, TrackV)>, cur: usize) -> bool {
    &&& m2.len() >= m.len()
    &&& m2.take(m.len() as int) == m
    &&& forall|k: int| m.len() <= k < m2.len() ==> (#[trigger] m2[k]).0 > cur && m2[k].1.identifier is Custom
}

proof fn lemma_custom_extension_trans(
    m: Seq<(usize, TrackV)>,
    m1: Seq<(usize, TrackV)>,
    m2: Seq<(usize, TrackV)>,
    cur: usize,
)
    requires
        custom_extension(m, m1, cur),
        custom_extension(m1, m2, cur),
    ensures
        custom_extension(m, m2, cur),
{
    assert(m2.take(m.len() as int) =~= m2.take(m1.len() as int).take(m.len() as int));
    assert forall|k: int| m.len() <= k < m2.len() implies (#[trigger] m2[k]).0 > cur
        && m2[k].1.identifier is Custom by {
        if k < m1.len() {
            assert(m2.take(m1.len() as int)[k] == m2[k]);
        }
    }
}

proof fn lemma_add_tracks_custom(m: Seq<(usize, TrackV)>, ts: Seq<TrackV>, cur: usize)
    ensures
        add_tracks(m, ts, cur) matches Some(m2) ==> custom_extension(m, m2, cur),
    decreases ts.len(),
{
    if ts.len() > 0 {
        lemma_add_tracks_custom(m, ts.drop_last(), cur);
        if let Some(m1) = add_tracks(m, ts.drop_last(), cur) {
            lemma_max_key(m1);
            let id = fresh_key(m1, cur);
            if id <= usize::MAX {
                let m2 = m1.push((id as usize, relabeled(ts.last(), id as usize)));
                assert(m2.take(m1.len() as int) =~= m1);
                lemma_custom_extension_trans(m, m1, m2, cur);
            }
        }
    } else {
        assert(m.take(m.len() as int) =~= m);
    }
}

proof fn lemma_add_comps_custom(m: Seq<(usize, TrackV)>, cs: Seq<CompositionV>, cur: usize)
    ensures
        add_comps(m, cs, cur) matches Some(m2) ==> custom_extension(m, m2, cur),
    decreases cs.len(),
{
    if cs.len() > 0 {
        lemma_add_comps_custom(m, cs.drop_last(), cur);
        if let Some(m1) = add_comps(m, cs.drop_last(), cur) {
            lemma_add_tracks_custom(m1, cs.last().tracks, cur);
            if let Some(m2) = add_tracks(m1, cs.last().tracks, cur) {
                lemma_custom_extension_trans(m, m1, m2, cur);
            }
        }
    } else {
        assert(m.take(m.len() as int) =~= m);
    }
}

proof fn lemma_repeat_track_custom(t: TrackV, k: nat, ts: TimeSignature, single: Duration, td: Duration, id: usize)
    ensures
        repeat_track(t, k, ts, single, td, id) matches Some(r) ==> r.identifier == TrackId::Custom(id),
    decreases k,
{
    if k > 0 {
        lemma_repeat_track_custom(t, (k - 1) as nat, ts, single, td, id);
    }
}

proof fn lemma_repeat_all_custom(
    m: Seq<(usize, TrackV)>,
    trs: Seq<TrackV>,
    cur: usize,
    num: nat,
    ts: TimeSignature,
    single: Duration,
    off: Duration,
)
    ensures
        repeat_all(m, trs, cur, num, ts, single, off) matches Some(m2) ==> custom_extension(m, m2, cur),
    decreases trs.len(),
{
    if trs.len() > 0 {
        lemma_repeat_all_custom(m, trs.drop_last(), cur, num, ts, single, off);
        if let Some(m1) = repeat_all(m, trs.drop_last(), cur, num, ts, single, off) {
            lemma_max_key(m1);
            let t = trs.last();
            let id = fresh_key(m1, cur);
            if id <= usize::MAX && span_fits(t) {
                lemma_repeat_track_custom(t, num, ts, single, track_duration(t, ts), id as usize);
                if let Some(rep) = repeat_track(t, num, ts, single, track_duration(t, ts), id as usize) {
                    if shift_fits(rep, off) {
                        let m2 = m1.push((id as usize, track_shifted(rep, off, true)));
                        assert(m2.take(m1.len() as int) =~= m1);
                        lemma_custom_extension_trans(m, m1, m2, cur);
                    }
                }
            }
        }
    } else {
        assert(m.take(m.len() as int) =~= m);
    }
}

/// The length a sound of the symbol takes has a positive denominator.
pub open spec fn sound_length_ok(s: SymbolV) -> bool {
    match s {
        SymbolV::T(Terminal::AbsoluteSound { duration, .. }) => duration.value.0.d() > 0,
        SymbolV::T(Terminal::CurrentSound { duration }) => duration.value.0.d() > 0,
        _ => true,
    }
}

/// Composing one symbol keeps the voices in order.
proof fn lemma_symbol_keeps(s: SymbolV, ts: TimeSignature, st: ComposeState)
    requires
        voices_ok(st),
        sound_length_ok(s),
    ensures
        symbol_step(s, ts, st) matches Outcome::Done(st2) ==> voices_ok(st2),
{
    Ratio::lemma_lowest_integer(0);
    let z = zero_duration(ts);
    let perf = st.performer;
    match s {
        SymbolV::NT(_) => lemma_advance_keeps(st, z),
        SymbolV::T(t) => match t {
            Terminal::Meta(MetaControl::ChangeInstrument(i)) => {
                let id = max_key(st.tracks) + 1;
                if id <= usize::MAX {
                    lemma_max_key(st.tracks);
                    lemma_find_key(st.tracks, id as usize);
                    let mid = ComposeState {
                        current: id as usize,
                        performer: Performer { instrument: i, ..perf },
                        ..st
                    };
                    if find_key(st.tracks, id as usize) >= 0 {
                        assert(st.tracks[find_key(st.tracks, id as usize)].0 <= max_key(st.tracks));
                    }
                    assert(voices_ok(mid));
                    lemma_advance_keeps(mid, z);
                }
            },
            Terminal::Meta(MetaControl::ChangeVolume(v)) => {
                let mid = ComposeState { performer: Performer { volume: v, ..perf }, ..st };
                assert(voices_ok(mid));
                lemma_advance_keeps(mid, z);
            },
            Terminal::AbsoluteSound { duration, note } => {
                let pitch = match note {
                    TerminalNote::Note { pitch } => pitch,
                    TerminalNote::Rest => Pitch::spec_new(0, 0),
                };
                lemma_add_item_keeps(st, duration, pitch, note is Rest);
            },
            Terminal::CurrentSound { duration } => {
                lemma_add_item_keeps(st, duration, perf.pitch, false);
            },
            Terminal::MovePitch { semitones } => {
                let mid = ComposeState {
                    performer: Performer { pitch: transposed_pitch(perf.pitch, semitones as int), ..perf },
                    ..st
                };
                assert(voices_ok(mid));
                lemma_advance_keeps(mid, z);
            },
        },
    }
}

/// The tracks added as voices, in order, after the voices written before, each under its own
/// number.
proof fn lemma_add_tracks_items(m: Seq<(usize, TrackV)>, ts: Seq<TrackV>, cur: usize)
    ensures
        add_tracks(m, ts, cur) matches Some(m2) ==> {
            &&& m2.len() == m.len() + ts.len()
            &&& forall|k: int|
                0 <= k < ts.len() ==> m2[m.len() + k].1 == relabeled(#[trigger] ts[k], m2[m.len() + k].0)
        },
    decreases ts.len(),
{
    if ts.len() > 0 {
        lemma_add_tracks_items(m, ts.drop_last(), cur);
        if let Some(m1) = add_tracks(m, ts.drop_last(), cur) {
            let id = fresh_key(m1, cur);
            if id <= usize::MAX {
                let m2 = m1.push((id as usize, relabeled(ts.last(), id as usize)));
                assert forall|k: int| 0 <= k < ts.len() implies m2[m.len() + k].1 == relabeled(
                    #[trigger] ts[k],
                    m2[m.len() + k].0,
                ) by {
                    if k < ts.len() - 1 {
                        assert(ts.drop_last()[k] == ts[k]);
                        assert(m2[m.len() + k] == m1[m.len() + k]);
                    }
                }
            }
        }
    }
}

/// Moving a track in time keeps its events and how long each lasts.
proof fn lemma_shift_keeps_durations(t: TrackV, off: Duration)
    ensures
        track_shifted(t, off, true).events.len() == t.events.len(),
        forall|i: int|
            0 <= i < t.events.len() ==> (#[trigger] track_shifted(t, off, true).events[i]).duration
                == t.events[i].duration,
{
}

/// Composing a compressed passage writes its voices after the voices written before, with
/// every note of each lasting the factor (taken without its sign) times as long as in the
/// passage composed on its own, and in reverse order for a negative factor.
pub proof fn lemma_compression_scales(factor: TimeCompression, inner: CompositionV, ts: TimeSignature, st: ComposeState)
    requires
        0 < factor.0.d() <= u32::MAX,
        abs(factor.0.n()) <= u32::MAX,
        forall|k: int, i: int|
            0 <= k < inner.tracks.len() && 0 <= i < inner.tracks[k].events.len()
                ==> (#[trigger] inner.tracks[k].events[i]).duration.value.0.d() > 0,
    ensures
        transform_step(MusicTransform::Compression { factor }, inner, ts, st) matches Outcome::Done(st2) ==> {
            &&& st2.tracks.len() >= st.tracks.len() + inner.tracks.len()
            &&& forall|k: int|
                0 <= k < inner.tracks.len() ==> events_scaled_by(
                    #[trigger] inner.tracks[k],
                    st2.tracks[st.tracks.len() + k].1,
                    factor.0,
                )
        },
{
    let off = st.offset;
    let cm = comp_compressed(inner, factor);
    let sh = comp_shifted(cm, off, true);
    if comp_compress_fits(inner, factor) && comp_shift_fits(cm, off) && comp_duration_fits(sh) {
        lemma_add_tracks_items(st.tracks, sh.tracks, st.current);
        lemma_add_tracks_custom(st.tracks, sh.tracks, st.current);
        if let Some(m) = add_tracks(st.tracks, sh.tracks, st.current) {
            let n0 = st.tracks.len() as int;
            let e = played(st, composition_duration(sh), st.performer.pitch);
            let m2 = add_event_spec(m, st.current, e, st.performer, true);
            lemma_find_key(m, st.current);
            let fk = find_key(m, st.current);
            if fk >= 0 {
                assert(m[fk].0 == st.current);
                assert(fk < n0);
            }
            assert forall|k: int| 0 <= k < inner.tracks.len() implies events_scaled_by(
                #[trigger] inner.tracks[k],
                m2[n0 + k].1,
                factor.0,
            ) by {
                let t = inner.tracks[k];
                assert(m2[n0 + k] == m[n0 + k]);
                assert(sh.tracks[k] == track_shifted(track_compressed(t, factor), off, true));
                assert(compress_fits(t, factor));
                assert forall|i: int| 0 <= i < t.events.len() implies (#[trigger] t.events[i]).duration.value.0.d() > 0 by {
                    assert(inner.tracks[k].events[i] == t.events[i]);
                }
                lemma_compressed_durations(t, factor);
                lemma_shift_keeps_durations(track_compressed(t, factor), off);
                assert(m[n0 + k].1 == relabeled(sh.tracks[k], m[n0 + k].0));
            }
        }
    }
}

/// The outcome of composing is what `r` reports: the voices of the finished state, or the
/// error for branches of different lengths.
pub open spec fn composed_as(o: Outcome<ComposeState>, ts: TimeSignature, r: Result<Composition, ComposeError>) -> bool {
    match o {
        Outcome::Done(st) => r matches Ok(c) && c@ == result_comp(st, ts),
        Outcome::Mismatch => r matches Err(ComposeError::MismatchedLengths(_)),
        Outcome::TooLarge => true,
    }
}

/// The voices of an exec map, seen as values.
pub open spec fn voices_view(m: Seq<(usize, Track)>) -> Seq<(usize, TrackV)> {
    m.map_values(|p: (usize, Track)| (p.0, p.1@))
}

/// The views of a sequence of compositions.
pub open spec fn comps_view(cs: Seq<Composition>) -> Seq<CompositionV> {
    cs.map_values(|c: Composition| c@)
}

proof fn lemma_steps_prefix(ps: Seq<PrimV>, i: int, n: int, ts: TimeSignature, perf: Performer)
    requires
        0 <= i <= n <= ps.len(),
        !(compose_steps(ps, n, ts, perf) is TooLarge),
    ensures
        !(compose_steps(ps, i, ts, perf) is TooLarge),
        compose_steps(ps, i, ts, perf) is Mismatch ==> compose_steps(ps, n, ts, perf) is Mismatch,
    decreases n - i,
{
    if i < n {
        assert(!(compose_steps(ps, n - 1, ts, perf) is TooLarge));
        lemma_steps_prefix(ps, i, n - 1, ts, perf);
    }
}

proof fn lemma_branches_prefix(bs: Seq<Seq<PrimV>>, i: int, n: int, ts: TimeSignature, perf: Performer)
    requires
        0 <= i <= n <= bs.len(),
        !(compose_branches(bs, n, ts, perf) is TooLarge),
    ensures
        !(compose_branches(bs, i, ts, perf) is TooLarge),
        compose_branches(bs, i, ts, perf) is Mismatch ==> compose_branches(bs, n, ts, perf) is Mismatch,
    decreases n - i,
{
    if i < n {
        assert(!(compose_branches(bs, n - 1, ts, perf) is TooLarge));
        lemma_branches_prefix(bs, i, n - 1, ts, perf);
    }
}

proof fn lemma_add_tracks_prefix(m: Seq<(usize, TrackV)>, s: Seq<TrackV>, i: int, cur: usize)
    requires
        0 <= i <= s.len(),
        add_tracks(m, s, cur) is Some,
    ensures
        add_tracks(m, s.take(i), cur) is Some,
    decreases s.len(),
{
    if i == s.len() {
        assert(s.take(i) =~= s);
    } else {
        assert(s.drop_last().take(i) =~= s.take(i));
        lemma_add_tracks_prefix(m, s.drop_last(), i, cur);
    }
}

proof fn lemma_add_comps_prefix(m: Seq<(usize, TrackV)>, s: Seq<CompositionV>, i: int, cur: usize)
    requires
        0 <= i <= s.len(),
        add_comps(m, s, cur) is Some,
    ensures
        add_comps(m, s.take(i), cur) is Some,
    decreases s.len(),
{
    if i == s.len() {
        assert(s.take(i) =~= s);
    } else {
        assert(s.drop_last().take(i) =~= s.take(i));
        lemma_add_comps_prefix(m, s.drop_last(), i, cur);
    }
}

proof fn lemma_repeat_all_prefix(
    m: Seq<(usize, TrackV)>,
    s: Seq<TrackV>,
    cur: usize,
    i: int,
    num: nat,
    ts: TimeSignature,
    single: Duration,
    off: Duration,
)
    requires
        0 <= i <= s.len(),
        repeat_all(m, s, cur, num, ts, single, off) is Some,
    ensures
        repeat_all(m, s.take(i), cur, num, ts, single, off) is Some,
    decreases s.len(),
{
    if i == s.len() {
        assert(s.take(i) =~= s);
    } else {
        assert(s.drop_last().take(i) =~= s.take(i));
        lemma_repeat_all_prefix(m, s.drop_last(), cur, i, num, ts, single, off);
    }
}

proof fn lemma_repeat_prefix(
    t: TrackV,
    k: nat,
    n: nat,
    ts: TimeSignature,
    single: Duration,
    td: Duration,
    id: usize,
)
    requires
        k <= n,
        repeat_track(t, n, ts, single, td, id) is Some,
    ensures
        repeat_track(t, k, ts, single, td, id) is Some,
    decreases n - k,
{
    if k < n {
        lemma_repeat_prefix(t, k, (n - 1) as nat, ts, single, td, id);
    }
}

proof fn lemma_find_key(m: Seq<(usize, TrackV)>, id: usize)
    ensures
        -1 <= find_key(m, id) < m.len(),
        find_key(m, id) >= 0 ==> m[find_key(m, id)].0 == id,
        forall|k: int| find_key(m, id) < k < m.len() ==> (#[trigger] m[k]).0 != id,
        find_key(m, id) < 0 ==> forall|k: int| 0 <= k < m.len() ==> (#[trigger] m[k]).0 != id,
    decreases m.len(),
{
    if m.len() > 0 {
        lemma_find_key(m.drop_last(), id);
        assert forall|k: int| find_key(m, id) < k < m.len() implies (#[trigger] m[k]).0 != id by {
            if k < m.len() - 1 {
                assert(m.drop_last()[k] == m[k]);
            }
        }
        if find_key(m, id) < 0 {
            assert forall|k: int| 0 <= k < m.len() implies (#[trigger] m[k]).0 != id by {
                if k < m.len() - 1 {
                    assert(m.drop_last()[k] == m[k]);
                }
            }
        }
    }
}

/// The message of the error for branches of different lengths: `format!` with the `Debug`
/// form of their durations. Nothing is claimed of the text, which rests on `Debug`.
#[verifier::external_body]
pub(crate) fn mismatch_message(durations: &Vec<Duration>) -> String {
    format!("Not all split tracks have the same duration: {:?}", durations)
}

fn max_key_exec(m: &Vec<(usize, Track)>) -> (r: usize)
    ensures
        r == max_key(voices_view(m@)),
{
    let ghost mv = voices_view(m@);
    let mut best: usize = 0;
    let mut i: usize = 0;
    while i < m.len()
        invariant
            mv == voices_view(m@),
            i <= m@.len(),
            best == max_key(mv.take(i as int)),
        decreases m@.len() - i,
    {
        assert(mv.take(i + 1).drop_last() =~= mv.take(i as int));
        assert(mv.take(i + 1).last() == mv[i as int]);
        if m[i].0 > best {
            best = m[i].0;
        }
        i = i + 1;
    }
    assert(mv.take(i as int) =~= mv);
    best
}

fn has_voice(m: &Vec<(usize, Track)>, id: usize) -> (b: bool)
    ensures
        b == (find_key(voices_view(m@), id) >= 0),
{
    let ghost mv = voices_view(m@);
    proof {
        lemma_find_key(mv, id);
    }
    let mut i: usize = 0;
    while i < m.len()
        invariant
            i <= m@.len(),
            mv == voices_view(m@),
            forall|k: int| 0 <= k < i ==> (#[trigger] m@[k]).0 != id,
        decreases m@.len() - i,
    {
        if m[i].0 == id {
            proof {
                lemma_find_key(mv, id);
                assert(mv[i as int].0 == id);
            }
            return true;
        }
        i = i + 1;
    }
    proof {
        let fk = find_key(mv, id);
        if fk >= 0 {
            assert(m@[fk].0 == mv[fk].0);
        }
    }
    false
}

fn add_event_exec(m: &mut Vec<(usize, Track)>, id: usize, e: Event, perf: Performer, is_rest: bool)
    ensures
        voices_view(final(m)@) == add_event_spec(voices_view(old(m)@), id, e, perf, is_rest),
{
    let ghost mv = voices_view(m@);
    proof {
        lemma_find_key(mv, id);
    }
    let mut j = m.len();
    while j > 0 && m[j - 1].0 != id
        invariant
            j <= m@.len(),
            mv == voices_view(m@),
            forall|k: int| j <= k < m@.len() ==> (#[trigger] m@[k]).0 != id,
        decreases j,
    {
        j = j - 1;
    }
    proof {
        let fk = find_key(mv, id);
        if j > 0 {
            assert(mv[j - 1].0 == id);
            if fk > j - 1 {
                assert(m@[fk].0 == mv[fk].0);
            }
            assert(fk == j - 1);
        } else {
            if fk >= 0 {
                assert(m@[fk].0 == mv[fk].0);
            }
            assert(fk < 0);
        }
    }
    if j > 0 {
        let (k, mut t) = m.remove(j - 1);
        let ghost t0 = t@;
        if is_rest {
            t.rests.push(e);
        } else {
            t.events.push(e);
        }
        assert(t@ == with_event(t0, e, is_rest));
        m.insert(j - 1, (k, t));
        assert(voices_view(m@) =~= mv.update(j - 1, (id, with_event(mv[j - 1].1, e, is_rest))));
    } else {
        let mut t = Track {
            identifier: TrackId::Instrument(perf.instrument),
            instrument: perf.instrument,
            events: Vec::new(),
            rests: Vec::new(),
        };
        if is_rest {
            t.rests.push(e);
        } else {
            t.events.push(e);
        }
        assert(t@.events =~= new_voice(perf, e, is_rest).events);
        assert(t@.rests =~= new_voice(perf, e, is_rest).rests);
        assert(t@ == new_voice(perf, e, is_rest));
        m.push((id, t));
        assert(voices_view(m@) =~= mv.push((id, new_voice(perf, e, is_rest))));
    }
}

fn add_tracks_exec(m: &mut Vec<(usize, Track)>, tv: Vec<Track>, cur: usize)
    requires
        add_tracks(voices_view(old(m)@), tracks_view(tv@), cur) is Some,
    ensures
        Some(voices_view(final(m)@)) == add_tracks(voices_view(old(m)@), tracks_view(tv@), cur),
{
    let ghost m0 = voices_view(m@);
    let ghost orig = tv@;
    let ghost all = tracks_view(tv@);
    let mut rest = tv;
    let mut n: usize = 0;
    let total = rest.len();
    assert(all.take(0) =~= Seq::<TrackV>::empty());
    while rest.len() > 0
        invariant
            total == orig.len(),
            n + rest@.len() == total,
            rest@ == orig.skip(n as int),
            all == tracks_view(orig),
            add_tracks(m0, all, cur) is Some,
            add_tracks(m0, all.take(n as int), cur) == Some(voices_view(m@)),
        decreases rest@.len(),
    {
        proof {
            lemma_add_tracks_prefix(m0, all, n + 1, cur);
            assert(all.take(n + 1).drop_last() =~= all.take(n as int));
            assert(all.take(n + 1).last() == all[n as int]);
        }
        let mut t = rest.remove(0);
        assert(t == orig[n as int]);
        assert(all[n as int] == t@);
        let mx = max_key_exec(m);
        let id = if cur > mx {
            cur + 1
        } else {
            mx + 1
        };
        t.identifier = TrackId::Custom(id);
        let ghost before = voices_view(m@);
        m.push((id, t));
        assert(voices_view(m@) =~= before.push((id, relabeled(all[n as int], id))));
        n = n + 1;
        assert(rest@ =~= orig.skip(n as int));
    }
    assert(all.take(n as int) =~= all);
}

fn repeat_track_exec(t: &Track, num: usize, ts: TimeSignature, single: Duration, td: Duration, id: usize) -> (r: Track)
    requires
        repeat_track(t@, num as nat, ts, single, td, id) is Some,
    ensures
        Some(r@) == repeat_track(t@, num as nat, ts, single, td, id),
{
    let mut r = Track {
        identifier: TrackId::Custom(id),
        instrument: t.instrument,
        events: Vec::new(),
        rests: Vec::new(),
    };
    assert(r@.events =~= Seq::<Event>::empty());
    assert(r@.rests =~= Seq::<Event>::empty());
    let mut k: usize = 0;
    while k < num
        invariant
            k <= num,
            repeat_track(t@, num as nat, ts, single, td, id) is Some,
            repeat_track(t@, k as nat, ts, single, td, id) == Some(r@),
        decreases num - k,
    {
        proof {
            lemma_repeat_prefix(t@, (k + 1) as nat, num as nat, ts, single, td, id);
        }
        r.append(t, ts);
        let end = match r.get_end(ts) {
            Some(e) => e,
            None => Duration::zero(ts),
        };
        let pad = single.minus(td);
        let ghost r1 = r@;
        r.rests.push(Event { start: end, duration: pad, volume: Volume(0), pitch: Pitch::none() });
        assert(r@.rests =~= r1.rests.push(rest_at(append_base(r1, ts), dur_minus(single, td))));
        k = k + 1;
    }
    r
}

fn into_tracks(m: Vec<(usize, Track)>) -> (v: Vec<Track>)
    ensures
        tracks_view(v@) == voices_view(m@).map_values(|p: (usize, TrackV)| p.1),
{
    let ghost orig = m@;
    let mut rest = m;
    let mut v: Vec<Track> = Vec::new();
    let total = rest.len();
    while rest.len() > 0
        invariant
            total == orig.len(),
            v@.len() + rest@.len() == total,
            rest@ == orig.skip(v@.len() as int),
            forall|k: int| 0 <= k < v@.len() ==> #[trigger] v@[k] == orig[k].1,
        decreases rest@.len(),
    {
        let (_id, t) = rest.remove(0);
        v.push(t);
        assert(rest@ =~= orig.skip(v@.len() as int));
    }
    assert(tracks_view(v@) =~= voices_view(orig).map_values(|p: (usize, TrackV)| p.1));
    v
}

/// The state of a composition under way. The voices are kept as (number, track) pairs in
/// the order in which they were started, and the result lists them in that order: a hash map
/// from numbers to tracks would hand its tracks out in an order that changes from run to run,
/// which no contract could state.
struct Composer {
    tracks: Vec<(usize, Track)>,
    current: usize,
    offset: Duration,
    performer: Performer,
}

impl Composer {
    spec fn state(&self) -> ComposeState {
        ComposeState {
            tracks: voices_view(self.tracks@),
            current: self.current,
            offset: self.offset,
            performer: self.performer,
        }
    }

    fn advance_by(&mut self, d: Duration)
        requires
            advance(old(self).state(), d) is Done,
        ensures
            advance(old(self).state(), d) == Outcome::Done(final(self).state()),
    {
        self.offset.add_assign(d);
    }

    fn rest_while_exec(&mut self, d: Duration)
        requires
            rest_while(old(self).state(), old(self).state().tracks, d) is Done,
            voices_ok(old(self).state()),
        ensures
            rest_while(old(self).state(), old(self).state().tracks, d) == Outcome::Done(
                final(self).state(),
            ),
            voices_ok(final(self).state()),
    {
        proof {
            use_type_invariant(&d.value.0);
            d.value.0.lemma_lowest_terms();
            lemma_add_item_keeps(self.state(), d, self.performer.pitch, true);
        }
        let e = Event {
            start: self.offset,
            duration: d,
            volume: self.performer.volume,
            pitch: self.performer.pitch,
        };
        add_event_exec(&mut self.tracks, self.current, e, self.performer, true);
        self.advance_by(d);
    }

    fn symbol_exec(&mut self, s: &Symbol, ts: TimeSignature)
        requires
            !(symbol_step(symbol_view(*s), ts, old(self).state()) is TooLarge),
            voices_ok(old(self).state()),
        ensures
            symbol_step(symbol_view(*s), ts, old(self).state()) == Outcome::Done(final(self).state()),
            voices_ok(final(self).state()),
    {
        let ghost st0 = self.state();
        proof {
            match s {
                Symbol::T(Terminal::AbsoluteSound { duration, .. }) => {
                    use_type_invariant(&duration.value.0);
                    duration.value.0.lemma_lowest_terms();
                },
                Symbol::T(Terminal::CurrentSound { duration }) => {
                    use_type_invariant(&duration.value.0);
                    duration.value.0.lemma_lowest_terms();
                },
                _ => {},
            }
            lemma_symbol_keeps(symbol_view(*s), ts, st0);
        }
        match s {
            Symbol::NT(_) => {
                self.advance_by(Duration::zero(ts));
            },
            Symbol::T(t) => match t {
                Terminal::Meta(MetaControl::ChangeInstrument(instr)) => {
                    let mx = max_key_exec(&self.tracks);
                    self.current = mx + 1;
                    self.performer.instrument = *instr;
                    self.advance_by(Duration::zero(ts));
                },
                Terminal::Meta(MetaControl::ChangeVolume(v)) => {
                    self.performer.volume = *v;
                    self.advance_by(Duration::zero(ts));
                },
                Terminal::AbsoluteSound { duration, note } => {
                    let is_rest = match note {
                        TerminalNote::Rest => true,
                        TerminalNote::Note { .. } => false,
                    };
                    let pitch = match note {
                        TerminalNote::Note { pitch } => *pitch,
                        TerminalNote::Rest => Pitch::none(),
                    };
                    let e = Event {
                        start: self.offset,
                        duration: *duration,
                        volume: self.performer.volume,
                        pitch,
                    };
                    add_event_exec(&mut self.tracks, self.current, e, self.performer, is_rest);
                    self.advance_by(*duration);
                },
                Terminal::CurrentSound { duration } => {
                    let e = Event {
                        start: self.offset,
                        duration: *duration,
                        volume: self.performer.volume,
                        pitch: self.performer.pitch,
                    };
                    add_event_exec(&mut self.tracks, self.current, e, self.performer, false);
                    self.advance_by(*duration);
                },
                Terminal::MovePitch { semitones } => {
                    let mut p = self.performer.pitch;
                    p.transpose(*semitones);
                    self.performer.pitch = p;
                    self.advance_by(Duration::zero(ts));
                },
            },
        }
    }

    fn split_finish(&mut self, comps: Vec<Composition>, ts: TimeSignature) -> (r: Result<(), ComposeError>)
        requires
            !(split_step(comps_view(comps@), ts, old(self).state()) is TooLarge),
            voices_ok(old(self).state()),
        ensures
            match split_step(comps_view(comps@), ts, old(self).state()) {
                Outcome::Done(st) => r is Ok && final(self).state() == st,
                Outcome::Mismatch => r matches Err(ComposeError::MismatchedLengths(_)),
                Outcome::TooLarge => true,
            },
            r is Ok ==> voices_ok(final(self).state()),
    {
        let ghost orig = comps@;
        let ghost cv = comps_view(comps@);
        let ghost st0 = self.state();
        let ghost shifted = cv.map_values(|c: CompositionV| comp_shifted(c, st0.offset, true));
        assert(forall|k: int| 0 <= k < cv.len() ==> comp_shift_fits(#[trigger] cv[k], st0.offset));
        assert(forall|k: int| 0 <= k < cv.len() ==> comp_duration_fits(#[trigger] shifted[k]));
        let mut shifted_v: Vec<Composition> = Vec::new();
        let mut durs: Vec<Duration> = Vec::new();
        let mut rest = comps;
        let total = rest.len();
        while rest.len() > 0
            invariant
                total == orig.len(),
                cv == comps_view(orig),
                shifted == cv.map_values(|c: CompositionV| comp_shifted(c, st0.offset, true)),
                shifted_v@.len() + rest@.len() == total,
                rest@ == orig.skip(shifted_v@.len() as int),
                durs@.len() == shifted_v@.len(),
                forall|k: int| 0 <= k < cv.len() ==> comp_shift_fits(#[trigger] cv[k], st0.offset),
                forall|k: int| 0 <= k < cv.len() ==> comp_duration_fits(#[trigger] shifted[k]),
                forall|k: int| 0 <= k < shifted_v@.len() ==> (#[trigger] shifted_v@[k])@ == shifted[k],
                forall|k: int| 0 <= k < durs@.len() ==> #[trigger] durs@[k] == composition_duration(shifted[k]),
                self.state() == st0,
            decreases rest@.len(),
        {
            let ghost n = shifted_v@.len() as int;
            let mut c = rest.remove(0);
            assert(c == orig[n]);
            assert(cv[n] == c@);
            assert(comp_shift_fits(cv[n], st0.offset));
            c.shift_by(self.offset, true);
            assert(c@ =~= shifted[n]);
            assert(comp_duration_fits(shifted[n]));
            let d = c.get_duration();
            durs.push(d);
            shifted_v.push(c);
            assert(rest@ =~= orig.skip(shifted_v@.len() as int));
        }
        if shifted_v.len() == 0 {
            let z = Duration::zero(ts);
            proof {
                lemma_advance_keeps(self.state(), z);
            }
            self.advance_by(z);
            return Ok(());
        }
        let d0 = durs[0];
        let mut uniform = true;
        let mut k: usize = 0;
        while k < durs.len()
            invariant
                k <= durs@.len(),
                d0 == durs@[0],
                uniform == (forall|j: int| 0 <= j < k ==> #[trigger] durs@[j] == d0),
            decreases durs@.len() - k,
        {
            if durs[k] != d0 {
                uniform = false;
            }
            k = k + 1;
        }
        if !uniform {
            proof {
                let j = choose|j: int| 0 <= j < durs@.len() && #[trigger] durs@[j] != d0;
                assert(composition_duration(shifted[j]) != composition_duration(shifted[0]));
            }
            return Err(ComposeError::MismatchedLengths(mismatch_message(&durs)));
        }
        assert(forall|j: int|
            0 <= j < cv.len() ==> composition_duration(#[trigger] shifted[j]) == composition_duration(
                shifted[0],
            )) by {
            assert forall|j: int| 0 <= j < cv.len() implies composition_duration(#[trigger] shifted[j])
                == composition_duration(shifted[0]) by {
                assert(durs@[j] == d0);
            }
        }
        let ghost m0 = self.state().tracks;
        let started = has_voice(&self.tracks, self.current);
        let ghost shv = shifted_v@;
        assert(add_comps(m0, shifted, st0.current) is Some);
        let mut rest2 = shifted_v;
        let mut n2: usize = 0;
        let total2 = rest2.len();
        assert(shifted.take(0) =~= Seq::<CompositionV>::empty());
        while rest2.len() > 0
            invariant
                total2 == shv.len(),
                shv.len() == shifted.len(),
                forall|k: int| 0 <= k < shv.len() ==> (#[trigger] shv[k])@ == shifted[k],
                n2 + rest2@.len() == total2,
                rest2@ == shv.skip(n2 as int),
                add_comps(m0, shifted, st0.current) is Some,
                add_comps(m0, shifted.take(n2 as int), st0.current) == Some(voices_view(self.tracks@)),
                self.current == st0.current,
                self.offset == st0.offset,
                self.performer == st0.performer,
            decreases rest2@.len(),
        {
            proof {
                lemma_add_comps_prefix(m0, shifted, n2 + 1, st0.current);
                assert(shifted.take(n2 + 1).drop_last() =~= shifted.take(n2 as int));
                assert(shifted.take(n2 + 1).last() == shifted[n2 as int]);
            }
            let c = rest2.remove(0);
            assert(c == shv[n2 as int]);
            add_tracks_exec(&mut self.tracks, c.tracks, self.current);
            n2 = n2 + 1;
            assert(rest2@ =~= shv.skip(n2 as int));
        }
        assert(shifted.take(n2 as int) =~= shifted);
        proof {
            lemma_add_comps_custom(m0, shifted, st0.current);
            lemma_extend_custom(st0, self.state().tracks);
            use_type_invariant(&d0.value.0);
            d0.value.0.lemma_lowest_terms();
        }
        if started {
            self.rest_while_exec(d0);
        } else {
            proof {
                lemma_advance_keeps(self.state(), d0);
            }
            self.advance_by(d0);
        }
        Ok(())
    }

    fn transform_finish(&mut self, t: MusicTransform, inner: Composition, ts: TimeSignature)
        requires
            !(transform_step(t, inner@, ts, old(self).state()) is TooLarge),
            voices_ok(old(self).state()),
        ensures
            transform_step(t, inner@, ts, old(self).state()) == Outcome::Done(final(self).state()),
            voices_ok(final(self).state()),
    {
        let mut inner = inner;
        let ghost st0 = self.state();
        let ghost iv = inner@;
        match t {
            MusicTransform::Transpose { semitones } => {
                inner.transpose(semitones);
                assert(inner@ =~= comp_transposed(iv, semitones as int));
                let d = inner.get_duration();
                inner.shift_by(self.offset, true);
                assert(inner@ =~= comp_shifted(comp_transposed(iv, semitones as int), st0.offset, true));
                let ghost added = inner@.tracks;
                add_tracks_exec(&mut self.tracks, inner.tracks, self.current);
                proof {
                    lemma_add_tracks_custom(st0.tracks, added, st0.current);
                    lemma_extend_custom(st0, self.state().tracks);
                }
                self.rest_while_exec(d);
            },
            MusicTransform::Compression { factor } => {
                inner.compress(factor);
                assert(inner@ =~= comp_compressed(iv, factor));
                inner.shift_by(self.offset, true);
                assert(inner@ =~= comp_shifted(comp_compressed(iv, factor), st0.offset, true));
                let d = inner.get_duration();
                let ghost added = inner@.tracks;
                add_tracks_exec(&mut self.tracks, inner.tracks, self.current);
                proof {
                    lemma_add_tracks_custom(st0.tracks, added, st0.current);
                    lemma_extend_custom(st0, self.state().tracks);
                }
                self.rest_while_exec(d);
            },
            MusicTransform::Repeat { num } => {
                let single = inner.get_duration();
                let ghost m0 = st0.tracks;
                let ghost trs = iv.tracks;
                let ghost orig = inner.tracks@;
                let mut rest = inner.tracks;
                let mut n: usize = 0;
                let total = rest.len();
                assert(trs.take(0) =~= Seq::<TrackV>::empty());
                while rest.len() > 0
                    invariant
                        total == orig.len(),
                        trs == tracks_view(orig),
                        n + rest@.len() == total,
                        rest@ == orig.skip(n as int),
                        repeat_all(m0, trs, st0.current, num as nat, ts, single, st0.offset) is Some,
                        repeat_all(m0, trs.take(n as int), st0.current, num as nat, ts, single, st0.offset) == Some(
                            voices_view(self.tracks@),
                        ),
                        self.current == st0.current,
                        self.offset == st0.offset,
                        self.performer == st0.performer,
                    decreases rest@.len(),
                {
                    proof {
                        lemma_repeat_all_prefix(m0, trs, st0.current, n + 1, num as nat, ts, single, st0.offset);
                        assert(trs.take(n + 1).drop_last() =~= trs.take(n as int));
                        assert(trs.take(n + 1).last() == trs[n as int]);
                    }
                    let track = rest.remove(0);
                    assert(track == orig[n as int]);
                    assert(trs[n as int] == track@);
                    let mx = max_key_exec(&self.tracks);
                    let id = if self.current > mx {
                        self.current + 1
                    } else {
                        mx + 1
                    };
                    let td = track.get_duration(ts);
                    let mut rep = repeat_track_exec(&track, num, ts, single, td, id);
                    rep.shift_by(self.offset, true);
                    let ghost before = voices_view(self.tracks@);
                    self.tracks.push((id, rep));
                    assert(voices_view(self.tracks@) =~= before.push((id, rep@)));
                    n = n + 1;
                    assert(rest@ =~= orig.skip(n as int));
                }
                assert(trs.take(n as int) =~= trs);
                proof {
                    lemma_repeat_all_custom(m0, trs, st0.current, num as nat, ts, single, st0.offset);
                    lemma_extend_custom(st0, self.state().tracks);
                }
                let total_duration = single.times_integer(num as u32);
                self.rest_while_exec(total_duration);
            },
        }
    }
}

impl Composer {
    fn run_prim(&mut self, p: &MusicPrimitive, ts: TimeSignature) -> (r: Result<(), ComposeError>)
        requires
            !(step(prim_view(*p), ts, old(self).state()) is TooLarge),
            voices_ok(old(self).state()),
        ensures
            match step(prim_view(*p), ts, old(self).state()) {
                Outcome::Done(st) => r is Ok && final(self).state() == st,
                Outcome::Mismatch => r matches Err(ComposeError::MismatchedLengths(_)),
                Outcome::TooLarge => true,
            },
            r is Ok ==> voices_ok(final(self).state()),
        decreases *p,
    {
        match p {
            MusicPrimitive::Simple(s) => {
                self.symbol_exec(s, ts);
                Ok(())
            },
            MusicPrimitive::Split { branches } => {
                let ghost bsv = Seq::new(
                    branches@.len(),
                    |i: int|
                        if 0 <= i < branches@.len() {
                            ms_view(branches@[i])
                        } else {
                            Seq::empty()
                        },
                );
                proof {
                    let pv = prim_view(*p);
                    assert(pv->Split_0 =~= bsv);
                    assert(pv == PrimV::Split(bsv));
                }
                let ghost st0 = self.state();
                let mut comps: Vec<Composition> = Vec::new();
                let mut b: usize = 0;
                assert(comps_view(comps@) =~= Seq::<CompositionV>::empty());
                while b < branches.len()
                    invariant
                        *p == (MusicPrimitive::Split { branches: *branches }),
                        prim_view(*p) == PrimV::Split(bsv),
                        bsv.len() == branches@.len(),
                        forall|i: int| 0 <= i < branches@.len() ==> #[trigger] bsv[i] == ms_view(branches@[i]),
                        b <= branches@.len(),
                        self.state() == st0,
                        voices_ok(st0),
                        !(compose_branches(bsv, bsv.len() as int, ts, st0.performer) is TooLarge),
                        compose_branches(bsv, b as int, ts, st0.performer) == Outcome::Done(comps_view(comps@)),
                    decreases branches@.len() - b,
                {
                    proof {
                        lemma_branches_prefix(bsv, b + 1, bsv.len() as int, ts, st0.performer);
                        assert(decreases_to!(*p => *branches));
                        assert(decreases_to!(*branches => branches@));
                        assert(decreases_to!(branches@ => branches@[b as int]));
                        assert(bsv[b as int] == ms_view(branches@[b as int]));
                    }
                    let c = branches[b].compose_v2(ts, self.performer);
                    match c {
                        Ok(c) => {
                            let ghost before = comps_view(comps@);
                            comps.push(c);
                            assert(comps_view(comps@) =~= before.push(c@));
                        },
                        Err(e) => {
                            proof {
                                lemma_branches_prefix(bsv, b + 1, bsv.len() as int, ts, st0.performer);
                            }
                            return Err(e);
                        },
                    }
                    b = b + 1;
                }
                self.split_finish(comps, ts)
            },
            MusicPrimitive::Transform { transform, content } => {
                let inner = content.compose_v2(ts, self.performer);
                match inner {
                    Ok(inner) => {
                        self.transform_finish(*transform, inner, ts);
                        Ok(())
                    },
                    Err(e) => Err(e),
                }
            },
        }
    }
}

impl MusicString {
    /// Compose the music string, each line of music a voice of its own. A voice has one
    /// instrument, and a split starts a voice for each branch; the branches of a split must
    /// last equally long. While a transformed passage plays in voices of its own, the current
    /// voice rests; while a split plays, the current voice rests too once it has been started.
    /// Each voice written here, under its instrument's name, is back to back: its notes and
    /// rests, taken by their starts, partition its span with no gap and no overlap.
    pub fn compose_v2(&self, time_signature: TimeSignature, starting_performer: Performer) -> (r: Result<Composition, ComposeError>)
        requires
            !(compose_spec(ms_view(*self), time_signature, starting_performer) is TooLarge),
        ensures
            composed_as(compose_spec(ms_view(*self), time_signature, starting_performer), time_signature, r),
            r matches Ok(c) ==> forall|k: int|
                0 <= k < c@.tracks.len() && (#[trigger] c@.tracks[k]).identifier is Instrument
                    ==> back_to_back(c@.tracks[k]),
        decreases *self,
    {
        let ghost ps = ms_view(*self);
        let mut composer = Composer {
            tracks: Vec::new(),
            current: 0,
            offset: Duration::zero(time_signature),
            performer: starting_performer,
        };
        assert(composer.state().tracks =~= Seq::<(usize, TrackV)>::empty());
        let mut i: usize = 0;
        while i < self.0.len()
            invariant
                ps == ms_view(*self),
                ps.len() == self.0@.len(),
                i <= ps.len(),
                !(compose_steps(ps, ps.len() as int, time_signature, starting_performer) is TooLarge),
                compose_steps(ps, i as int, time_signature, starting_performer) == Outcome::Done(
                    composer.state(),
                ),
                voices_ok(composer.state()),
            decreases ps.len() - i,
        {
            proof {
                lemma_steps_prefix(ps, i + 1, ps.len() as int, time_signature, starting_performer);
                assert(decreases_to!(*self => self.0));
                assert(decreases_to!(self.0 => self.0@));
                assert(decreases_to!(self.0@ => self.0@[i as int]));
                assert(ps[i as int] == prim_view(self.0@[i as int]));
            }
            let res = composer.run_prim(&self.0[i], time_signature);
            match res {
                Ok(()) => {},
                Err(e) => {
                    return Err(e);
                },
            }
            i = i + 1;
        }
        let tracks = into_tracks(composer.tracks);
        let c = Composition { tracks, time_signature };
        assert(c@.tracks =~= result_comp(composer.state(), time_signature).tracks);
        assert forall|k: int|
            0 <= k < c@.tracks.len() && (#[trigger] c@.tracks[k]).identifier is Instrument implies back_to_back(
                c@.tracks[k],
            ) by {
            assert(c@.tracks[k] == composer.state().tracks[k].1);
        }
        Ok(c)
    }
}

} // verus!
