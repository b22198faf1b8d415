use vstd::prelude::*;
use vstd::string::StringExecFns;
use crate::ratio::{Ratio, SignedRatio, abs, same_value, sum_fits, diff_fits, prod_fits};
use crate::music_primitives::{
    Duration,
    Pitch,
    TimeSignature,
    NoteValue,
    dur_plus,
    dur_minus,
    dur_lt,
    dur_le,
    nv_times,
    beats_note_value,
    total_beats_spec,
    whole_measures_spec,
    duration_fits,
    transposed_pitch,
    transpose_fits,
};
use crate::text::{str_to_chars, chars_to_ascii_lower, chars_are, push_char, lower_seq};

verus! {


pub const MAX_VOLUME: u32 = 100;

/// A volume between 0 and `MAX_VOLUME`.
#[derive(Debug, Copy, Clone, PartialEq, Eq, Hash, Structural)]
pub struct Volume(pub u32);

/// What a track is known by.
#[derive(Debug, Copy, Clone, PartialEq, Eq, Hash, Structural)]
pub enum TrackId {
    Instrument(Instrument),
    Custom(usize),
}

/// One sounding note or rest: when it starts, how long it lasts, how loud and which pitch.
#[derive(Debug, Copy, Clone, PartialEq, Eq, Hash, Structural)]
pub struct Event {
    pub start: Duration,
    pub duration: Duration,
    pub volume: Volume,
    pub pitch: Pitch,
}

/// One voice: its events, and the rests that fill it out.
#[derive(Debug, Clone, PartialEq, Eq, Hash)]
pub struct Track {
    pub identifier: TrackId,
    pub instrument: Instrument,
    pub events: Vec<Event>,
    pub rests: Vec<Event>,
}

/// The tracks of a piece and its time signature.
#[derive(Clone, Debug, PartialEq, Eq)]
pub struct Composition {
    pub tracks: Vec<Track>,
    pub time_signature: TimeSignature,
}


/// A track seen as values: its identifier, its instrument, its events and its rests.
pub struct TrackV {
    pub identifier: TrackId,
    pub instrument: Instrument,
    pub events: Seq<Event>,
    pub rests: Seq<Event>,
}

impl View for Track {
    type V = TrackV;

    open spec fn view(&self) -> TrackV {
        TrackV {
            identifier: self.identifier,
            instrument: self.instrument,
            events: self.events@,
            rests: self.rests@,
        }
    }
}

/// The views of a sequence of tracks.
pub open spec fn tracks_view(s: Seq<Track>) -> Seq<TrackV> {
    s.map_values(|t: Track| t@)
}

/// A composition seen as values.
pub struct CompositionV {
    pub tracks: Seq<TrackV>,
    pub time_signature: TimeSignature,
}

impl View for Composition {
    type V = CompositionV;

    open spec fn view(&self) -> CompositionV {
        CompositionV { tracks: tracks_view(self.tracks@), time_signature: self.time_signature }
    }
}

/// No time at all, counted in `ts`.
pub open spec fn zero_duration(ts: TimeSignature) -> Duration {
    Duration { value: NoteValue(Ratio::lowest(0, 1)), time_signature: ts }
}

/// A duration of no length.
pub open spec fn is_zero_dur(d: Duration) -> bool {
    d.value.0.n() == 0
}

/// The difference of two values of a duration: same time signature, and a difference that
/// `Duration::minus` can compute.
pub open spec fn minus_fits(a: Duration, b: Duration) -> bool {
    a.time_signature == b.time_signature && diff_fits(a.value.0, b.value.0)
}

/// A duration scaled by a ratio, in its own time signature.
pub open spec fn dur_times(d: Duration, r: Ratio) -> Duration {
    Duration { value: nv_times(d.value, r), time_signature: d.time_signature }
}

/// A rest from `start` lasting `duration`: silent, on the placeholder pitch.
pub open spec fn rest_at(start: Duration, duration: Duration) -> Event {
    Event { start, duration, volume: Volume(0), pitch: Pitch::spec_new(0, 0) }
}

/// The event with its pitch moved by `semitones`.
pub open spec fn event_transposed(e: Event, semitones: int) -> Event {
    Event { pitch: transposed_pitch(e.pitch, semitones), ..e }
}

/// The end of an event: its start plus its duration.
pub open spec fn event_end(e: Event) -> Duration {
    dur_plus(e.start, e.duration)
}

/// The end of `e` can be computed: start and duration share a time signature, and the sum fits.
pub open spec fn end_fits(e: Event) -> bool {
    e.start.time_signature == e.duration.time_signature && sum_fits(e.start.value.0, e.duration.value.0)
}

/// Of two optional times the earlier; the first when they are equally early.
pub open spec fn min_opt(a: Option<Duration>, b: Option<Duration>) -> Option<Duration> {
    match (a, b) {
        (Some(x), Some(y)) => if dur_lt(y, x) {
            Some(y)
        } else {
            Some(x)
        },
        (Some(x), None) => Some(x),
        (None, y) => y,
    }
}

/// Of two optional times the later; the second when they are equally late.
pub open spec fn max_opt(a: Option<Duration>, b: Option<Duration>) -> Option<Duration> {
    match (a, b) {
        (Some(x), Some(y)) => if dur_le(x, y) {
            Some(y)
        } else {
            Some(x)
        },
        (Some(x), None) => Some(x),
        (None, y) => y,
    }
}

/// The earliest start of the events `s`, the first of equally early ones.
pub open spec fn min_start(s: Seq<Event>) -> Option<Duration>
    decreases s.len(),
{
    if s.len() == 0 {
        None
    } else {
        min_opt(min_start(s.drop_last()), Some(s.last().start))
    }
}

/// The latest end of the events `s`, the last of equally late ones.
pub open spec fn max_end(s: Seq<Event>) -> Option<Duration>
    decreases s.len(),
{
    if s.len() == 0 {
        None
    } else {
        max_opt(max_end(s.drop_last()), Some(event_end(s.last())))
    }
}

/// When a track starts: the earliest start among its events and rests.
pub open spec fn track_start(t: TrackV) -> Option<Duration> {
    min_opt(min_start(t.events), min_start(t.rests))
}

/// When a track ends: the latest end among its events and rests.
pub open spec fn track_end(t: TrackV) -> Option<Duration> {
    max_opt(max_end(t.events), max_end(t.rests))
}

/// The end of every event of `s` can be computed.
pub open spec fn seq_ends_fit(s: Seq<Event>) -> bool {
    forall|k: int| 0 <= k < s.len() ==> end_fits(#[trigger] s[k])
}

/// Every end in the track can be computed.
pub open spec fn ends_fit(t: TrackV) -> bool {
    seq_ends_fit(t.events) && seq_ends_fit(t.rests)
}

/// The length of a track can be computed: its ends can, and its end less its start can.
pub open spec fn span_fits(t: TrackV) -> bool {
    &&& ends_fit(t)
    &&& match (track_start(t), track_end(t)) {
        (Some(s), Some(e)) => minus_fits(e, s),
        _ => true,
    }
}

/// How long a track lasts, rests included: its end less its start, or nothing for an empty
/// track.
pub open spec fn track_duration(t: TrackV, ts: TimeSignature) -> Duration {
    match (track_start(t), track_end(t)) {
        (Some(s), Some(e)) => dur_minus(e, s),
        _ => zero_duration(ts),
    }
}

/// The event moved later by `offset`.
pub open spec fn event_shifted(e: Event, offset: Duration) -> Event {
    Event { start: dur_plus(e.start, offset), ..e }
}

/// Every event of `s` moved later by `offset`.
pub open spec fn events_shifted(s: Seq<Event>, offset: Duration) -> Seq<Event> {
    s.map_values(|e: Event| event_shifted(e, offset))
}

/// Every start of `s` can be moved by `offset`.
pub open spec fn seq_shift_fits(s: Seq<Event>, offset: Duration) -> bool {
    forall|k: int| 0 <= k < s.len() ==> sum_fits((#[trigger] s[k]).start.value.0, offset.value.0)
}

/// Every start of the track can be moved by `offset`.
pub open spec fn shift_fits(t: TrackV, offset: Duration) -> bool {
    seq_shift_fits(t.events, offset) && seq_shift_fits(t.rests, offset)
}

/// The track moved later by `offset`. Unless the track is empty, the offset is non-zero and no
/// rest is wanted, a rest filling the gap from the old start comes first among the rests.
pub open spec fn track_shifted(t: TrackV, offset: Duration, insert_rests: bool) -> TrackV {
    match track_start(t) {
        None => t,
        Some(prev) => TrackV {
            events: events_shifted(t.events, offset),
            rests: if !is_zero_dur(offset) && insert_rests {
                seq![rest_at(prev, offset)] + events_shifted(t.rests, offset)
            } else {
                events_shifted(t.rests, offset)
            },
            ..t
        },
    }
}

/// The track with every event's pitch moved by `semitones`; rests and timing stay.
pub open spec fn track_transposed(t: TrackV, semitones: int) -> TrackV {
    TrackV { events: t.events.map_values(|e: Event| event_transposed(e, semitones)), ..t }
}

/// Every event of the track can be moved by `semitones`.
pub open spec fn transposes_fit(t: TrackV, semitones: int) -> bool {
    forall|k: int|
        0 <= k < t.events.len() ==> transpose_fits(
            (#[trigger] t.events[k]).pitch.spec_octave() as int,
            t.events[k].pitch.spec_note_num() as int,
            semitones,
        )
}

/// The event mirrored within the span from `s` to `e`: it starts as long before `e` as it
/// ended after `s`.
pub open spec fn event_reflected(x: Event, s: Duration, e: Duration) -> Event {
    Event { start: dur_minus(dur_minus(e, dur_minus(x.start, s)), x.duration), ..x }
}

/// The subtractions of `event_reflected` can be computed.
pub open spec fn reflect_fits(x: Event, s: Duration, e: Duration) -> bool {
    let off = dur_minus(x.start, s);
    &&& minus_fits(x.start, s)
    &&& minus_fits(e, off)
    &&& minus_fits(dur_minus(e, off), x.duration)
}

/// Every event of `q` can be mirrored within the span from `s` to `e`.
pub open spec fn seq_reflect_fits(q: Seq<Event>, s: Duration, e: Duration) -> bool {
    forall|k: int| 0 <= k < q.len() ==> reflect_fits(#[trigger] q[k], s, e)
}

/// The events of `q` mirrored within the span from `s` to `e`, in reverse order.
pub open spec fn events_reflected(q: Seq<Event>, s: Duration, e: Duration) -> Seq<Event> {
    q.map_values(|x: Event| event_reflected(x, s, e)).reverse()
}

/// The track can be reversed.
pub open spec fn reverse_fits(t: TrackV) -> bool {
    &&& ends_fit(t)
    &&& match (track_start(t), track_end(t)) {
        (Some(s), Some(e)) => seq_reflect_fits(t.events, s, e) && seq_reflect_fits(t.rests, s, e),
        _ => true,
    }
}

/// The track played backwards within its own start and end.
pub open spec fn track_reversed(t: TrackV) -> TrackV {
    match (track_start(t), track_end(t)) {
        (Some(s), Some(e)) => TrackV {
            events: events_reflected(t.events, s, e),
            rests: events_reflected(t.rests, s, e),
            ..t
        },
        _ => t,
    }
}

/// The ratio by which a compression factor scales timings: its numerator and denominator
/// without their signs, cut to `u32`.
pub open spec fn factor_magnitude(f: SignedRatio) -> Ratio {
    Ratio::lowest((abs(f.n()) as u32) as int, (abs(f.d()) as u32) as int)
}

/// The event with its distance from `s` and its duration scaled by `f`.
pub open spec fn event_scaled(x: Event, s: Duration, f: Ratio) -> Event {
    Event {
        start: dur_plus(s, dur_times(dur_minus(x.start, s), f)),
        duration: dur_times(x.duration, f),
        ..x
    }
}

/// The arithmetic of `event_scaled` can be computed.
pub open spec fn scale_fits(x: Event, s: Duration, f: Ratio) -> bool {
    let off = dur_minus(x.start, s);
    &&& minus_fits(x.start, s)
    &&& prod_fits(off.value.0, f)
    &&& sum_fits(s.value.0, nv_times(off.value, f).0)
    &&& prod_fits(x.duration.value.0, f)
}

/// Every event of `q` can be scaled from `s` by `f`.
pub open spec fn seq_scale_fits(q: Seq<Event>, s: Duration, f: Ratio) -> bool {
    forall|k: int| 0 <= k < q.len() ==> scale_fits(#[trigger] q[k], s, f)
}

/// The track before its timings are scaled: reversed when the factor is negative.
pub open spec fn compress_base(t: TrackV, c: TimeCompression) -> TrackV {
    if c.0.n() < 0 {
        track_reversed(t)
    } else {
        t
    }
}

/// The track with its timings scaled by the magnitude of the factor toward its start, and
/// reversed first when the factor is negative.
pub open spec fn track_compressed(t: TrackV, c: TimeCompression) -> TrackV {
    let r = compress_base(t, c);
    let f = factor_magnitude(c.0);
    match (track_start(r), track_end(r)) {
        (Some(s), Some(_)) => TrackV {
            events: r.events.map_values(|x: Event| event_scaled(x, s, f)),
            rests: r.rests.map_values(|x: Event| event_scaled(x, s, f)),
            ..r
        },
        _ => r,
    }
}

/// `w` holds the events of `t`, each lasting `f` times as long: in the same order for a
/// positive `f`, in the reverse order for a negative one.
pub open spec fn events_scaled_by(t: TrackV, w: TrackV, f: SignedRatio) -> bool {
    &&& w.events.len() == t.events.len()
    &&& forall|i: int|
        0 <= i < t.events.len() ==> {
            let j = if f.n() < 0 {
                t.events.len() - 1 - i
            } else {
                i
            };
            same_value(
                w.events[j].duration.value.0.n(),
                w.events[j].duration.value.0.d(),
                (#[trigger] t.events[i]).duration.value.0.n() * abs(f.n()),
                t.events[i].duration.value.0.d() * f.d(),
            )
        }
}

/// A track with an event has a start and an end.
proof fn lemma_start_end_some(t: TrackV)
    requires
        t.events.len() > 0,
    ensures
        track_start(t) is Some,
        track_end(t) is Some,
{
}

/// Compressing a track by a factor makes each of its events last that factor (taken without
/// its sign) times as long; a negative factor also plays them in reverse order.
pub proof fn lemma_compressed_durations(t: TrackV, c: TimeCompression)
    requires
        compress_fits(t, c),
        0 < c.0.d() <= u32::MAX,
        abs(c.0.n()) <= u32::MAX,
        forall|i: int| 0 <= i < t.events.len() ==> (#[trigger] t.events[i]).duration.value.0.d() > 0,
    ensures
        events_scaled_by(t, track_compressed(t, c), c.0),
{
    let n = t.events.len();
    let r = compress_base(t, c);
    let fm = factor_magnitude(c.0);
    let w = track_compressed(t, c);
    let an = abs(c.0.n()) as int;
    let ad = c.0.d();
    Ratio::lemma_lowest(an, ad);
    assert(fm == Ratio::lowest(an, ad));
    if n > 0 {
        lemma_start_end_some(t);
        assert(r.events.len() == n);
        assert forall|j: int| 0 <= j < n implies (#[trigger] r.events[j]).duration == t.events[
            if c.0.n() < 0 { n - 1 - j } else { j }
        ].duration by {}
        lemma_start_end_some(r);
        let s = track_start(r)->0;
        assert(w.events == r.events.map_values(|x: Event| event_scaled(x, s, fm)));
        assert forall|i: int| 0 <= i < n implies {
            let j = if c.0.n() < 0 { n - 1 - i } else { i };
            same_value(
                w.events[j].duration.value.0.n(),
                w.events[j].duration.value.0.d(),
                (#[trigger] t.events[i]).duration.value.0.n() * abs(c.0.n()),
                t.events[i].duration.value.0.d() * c.0.d(),
            )
        } by {
            let j = if c.0.n() < 0 { n - 1 - i } else { i };
            let x = r.events[j];
            assert(x.duration == t.events[i].duration);
            assert(scale_fits(x, s, fm));
            let (xn, xd) = (x.duration.value.0.n(), x.duration.value.0.d());
            let (fn_, fd) = (fm.n(), fm.d());
            assert(xd * fd > 0) by (nonlinear_arith)
                requires
                    xd > 0,
                    fd > 0,
            ;
            x.duration.value.0.lemma_parts();
            assert(xn * fn_ >= 0) by (nonlinear_arith)
                requires
                    xn >= 0,
                    fn_ >= 0,
            ;
            Ratio::lemma_lowest(xn * fn_, xd * fd);
            let v = w.events[j].duration.value.0;
            assert(v == Ratio::lowest(xn * fn_, xd * fd));
            assert(same_value(xn * fn_, xd * fd, xn * an, xd * ad)) by (nonlinear_arith)
                requires
                    fn_ * ad == an * fd,
            ;
            assert(xd * ad > 0) by (nonlinear_arith)
                requires
                    xd > 0,
                    ad > 0,
            ;
            crate::ratio::lemma_same_value_trans(v.n(), v.d(), xn * fn_, xd * fd, xn * an, xd * ad);
        }
    }
}

/// The track can be compressed by `c`.
pub open spec fn compress_fits(t: TrackV, c: TimeCompression) -> bool {
    let r = compress_base(t, c);
    let f = factor_magnitude(c.0);
    &&& c.0.n() < 0 ==> reverse_fits(t)
    &&& (abs(c.0.d()) as u32) != 0
    &&& ends_fit(r)
    &&& match track_start(r) {
        Some(s) => seq_scale_fits(r.events, s, f) && seq_scale_fits(r.rests, s, f),
        None => true,
    }
}


/// Two durations are equally long.
pub open spec fn dur_eq(a: Duration, b: Duration) -> bool {
    a.value.0.n() * b.value.0.d() == b.value.0.n() * a.value.0.d()
}

/// `p` is lower than `q`: a lower octave, or the same octave and a lower pitch class.
pub open spec fn pitch_lt(p: Pitch, q: Pitch) -> bool {
    p.spec_octave() < q.spec_octave() || (p.spec_octave() == q.spec_octave()
        && p.spec_note_num() < q.spec_note_num())
}

/// The order of events: by start, then by duration, then by volume, then by pitch.
pub open spec fn event_lt(a: Event, b: Event) -> bool {
    ||| dur_lt(a.start, b.start)
    ||| dur_eq(a.start, b.start) && dur_lt(a.duration, b.duration)
    ||| dur_eq(a.start, b.start) && dur_eq(a.duration, b.duration) && a.volume.0 < b.volume.0
    ||| dur_eq(a.start, b.start) && dur_eq(a.duration, b.duration) && a.volume.0 == b.volume.0
        && pitch_lt(a.pitch, b.pitch)
}

/// `a` goes before `b`: by start alone, or in the order of events.
pub open spec fn precedes(a: Event, b: Event, by_start: bool) -> bool {
    if by_start {
        dur_lt(a.start, b.start)
    } else {
        event_lt(a, b)
    }
}

/// `x` placed into `s` after the last event that it does not go before.
pub open spec fn insert_sorted(s: Seq<Event>, x: Event, by_start: bool) -> Seq<Event>
    decreases s.len(),
{
    if s.len() == 0 {
        seq![x]
    } else if precedes(x, s.last(), by_start) {
        insert_sorted(s.drop_last(), x, by_start).push(s.last())
    } else {
        s.push(x)
    }
}

/// The events of `s` sorted, with events that neither goes before the other kept in their
/// order: what a stable sort gives.
pub open spec fn sorted_events(s: Seq<Event>, by_start: bool) -> Seq<Event>
    decreases s.len(),
{
    if s.len() == 0 {
        s
    } else {
        insert_sorted(sorted_events(s.drop_last(), by_start), s.last(), by_start)
    }
}

/// From position `i` on, each event of `s` starts where the one before it ended, the first
/// at `current`.
pub open spec fn contiguous_from(s: Seq<Event>, i: int, current: Duration) -> bool
    decreases s.len() - i,
{
    if i < 0 || i >= s.len() {
        true
    } else {
        dur_eq(s[i].start, current) && contiguous_from(s, i + 1, event_end(s[i]))
    }
}

/// The events of a track, sorted by their starts, follow one another with no gap and no
/// overlap.
pub open spec fn track_contiguous(t: TrackV) -> bool {
    let s = sorted_events(t.events, true);
    s.len() == 0 || contiguous_from(s, 0, s[0].start)
}

/// `e` starts after `start` (or at it, unless `start_exclusive`), and no later than `end`.
pub open spec fn starts_between(e: Event, start: Duration, end: Duration, start_exclusive: bool) -> bool {
    (if start_exclusive {
        dur_lt(start, e.start)
    } else {
        dur_le(start, e.start)
    }) && dur_le(e.start, end)
}

/// The events of `s` that start between `start` and `end`, in their order.
pub open spec fn filter_between(s: Seq<Event>, start: Duration, end: Duration, start_exclusive: bool) -> Seq<Event>
    decreases s.len(),
{
    if s.len() == 0 {
        s
    } else if starts_between(s.last(), start, end, start_exclusive) {
        filter_between(s.drop_last(), start, end, start_exclusive).push(s.last())
    } else {
        filter_between(s.drop_last(), start, end, start_exclusive)
    }
}

/// The events of a track (rests left out) that start between `start` and `end`, sorted; none
/// when the interval is empty.
pub open spec fn events_between(t: TrackV, start: Duration, end: Duration, start_exclusive: bool) -> Seq<Event> {
    if (start_exclusive && dur_le(end, start)) || dur_lt(end, start) {
        Seq::empty()
    } else {
        sorted_events(filter_between(t.events, start, end, start_exclusive), false)
    }
}

/// Two tracks played as one: the identifier and instrument of the first, and the events and
/// the rests of both, sorted.
pub open spec fn track_sum(a: TrackV, b: TrackV) -> TrackV {
    TrackV {
        identifier: a.identifier,
        instrument: a.instrument,
        events: sorted_events(a.events + b.events, false),
        rests: sorted_events(a.rests + b.rests, false),
    }
}

/// Sorting keeps the number of events, and every event of the result is one of the input's.
pub proof fn lemma_sorted_events_from(s: Seq<Event>, by_start: bool)
    ensures
        sorted_events(s, by_start).len() == s.len(),
        forall|k: int|
            0 <= k < s.len() ==> s.contains(#[trigger] sorted_events(s, by_start)[k]),
    decreases s.len(),
{
    if s.len() > 0 {
        let p = s.drop_last();
        lemma_sorted_events_from(p, by_start);
        lemma_insert_sorted_from(sorted_events(p, by_start), s.last(), by_start);
        let r = sorted_events(s, by_start);
        assert forall|k: int| 0 <= k < s.len() implies s.contains(#[trigger] r[k]) by {
            if r[k] == s.last() {
                assert(s[s.len() - 1] == r[k]);
            } else {
                assert(sorted_events(p, by_start).contains(r[k]));
                let j = choose|j: int| 0 <= j < p.len() && sorted_events(p, by_start)[j] == r[k];
                assert(p.contains(r[k]));
                let i = choose|i: int| 0 <= i < p.len() && p[i] == r[k];
                assert(s[i] == r[k]);
            }
        }
    }
}

proof fn lemma_insert_sorted_from(s: Seq<Event>, x: Event, by_start: bool)
    ensures
        insert_sorted(s, x, by_start).len() == s.len() + 1,
        forall|k: int|
            0 <= k <= s.len() ==> #[trigger] insert_sorted(s, x, by_start)[k] == x || s.contains(
                insert_sorted(s, x, by_start)[k],
            ),
    decreases s.len(),
{
    if s.len() > 0 && precedes(x, s.last(), by_start) {
        let p = s.drop_last();
        lemma_insert_sorted_from(p, x, by_start);
        let r = insert_sorted(s, x, by_start);
        assert forall|k: int| 0 <= k <= s.len() implies #[trigger] r[k] == x || s.contains(r[k]) by {
            if k == s.len() {
                assert(s[s.len() - 1] == r[k]);
            } else if r[k] != x {
                assert(p.contains(insert_sorted(p, x, by_start)[k]));
                let i = choose|i: int| 0 <= i < p.len() && p[i] == r[k];
                assert(s[i] == r[k]);
            }
        }
    } else if s.len() > 0 {
        let r = insert_sorted(s, x, by_start);
        assert forall|k: int| 0 <= k <= s.len() implies #[trigger] r[k] == x || s.contains(r[k]) by {
            if k < s.len() {
                assert(s[k] == r[k]);
            }
        }
    }
}


fn min_start_of(s: &Vec<Event>) -> (r: Option<Duration>)
    ensures
        r == min_start(s@),
{
    let mut best: Option<Duration> = None;
    let mut i: usize = 0;
    while i < s.len()
        invariant
            i <= s@.len(),
            best == min_start(s@.take(i as int)),
        decreases s@.len() - i,
    {
        let x = s[i].start;
        assert(s@.take(i + 1).drop_last() =~= s@.take(i as int));
        best = match best {
            Some(m) => if x.less_than(&m) {
                Some(x)
            } else {
                Some(m)
            },
            None => Some(x),
        };
        i = i + 1;
    }
    assert(s@.take(i as int) =~= s@);
    best
}

fn max_end_of(s: &Vec<Event>) -> (r: Option<Duration>)
    requires
        seq_ends_fit(s@),
    ensures
        r == max_end(s@),
{
    let mut best: Option<Duration> = None;
    let mut i: usize = 0;
    while i < s.len()
        invariant
            i <= s@.len(),
            seq_ends_fit(s@),
            best == max_end(s@.take(i as int)),
        decreases s@.len() - i,
    {
        assert(end_fits(s@[i as int]));
        let x = s[i].get_end(s[i].start.time_signature);
        assert(s@.take(i + 1).drop_last() =~= s@.take(i as int));
        best = match best {
            Some(m) => if m.at_most(&x) {
                Some(x)
            } else {
                Some(m)
            },
            None => Some(x),
        };
        i = i + 1;
    }
    assert(s@.take(i as int) =~= s@);
    best
}

/// Of two optional times the earlier; the first when they are equally early.
pub fn min_option(a: Option<Duration>, b: Option<Duration>) -> (r: Option<Duration>)
    ensures
        r == min_opt(a, b),
{
    match (a, b) {
        (Some(x), Some(y)) => if y.less_than(&x) {
            Some(y)
        } else {
            Some(x)
        },
        (Some(x), None) => Some(x),
        (None, y) => y,
    }
}

/// Of two optional times the later; the second when they are equally late.
pub fn max_option(a: Option<Duration>, b: Option<Duration>) -> (r: Option<Duration>)
    ensures
        r == max_opt(a, b),
{
    match (a, b) {
        (Some(x), Some(y)) => if x.at_most(&y) {
            Some(y)
        } else {
            Some(x)
        },
        (Some(x), None) => Some(x),
        (None, y) => y,
    }
}

fn shift_events(v: &mut Vec<Event>, offset: Duration)
    requires
        seq_shift_fits(old(v)@, offset),
    ensures
        final(v)@ == events_shifted(old(v)@, offset),
{
    let ghost old_v = v@;
    let mut i: usize = 0;
    while i < v.len()
        invariant
            i <= v@.len(),
            v@.len() == old_v.len(),
            seq_shift_fits(old_v, offset),
            forall|k: int| i <= k < v@.len() ==> #[trigger] v@[k] == old_v[k],
            forall|k: int| 0 <= k < i ==> #[trigger] v@[k] == event_shifted(old_v[k], offset),
        decreases v@.len() - i,
    {
        let mut e = v[i];
        assert(sum_fits(old_v[i as int].start.value.0, offset.value.0));
        e.start.add_assign(offset);
        v.set(i, e);
        i = i + 1;
    }
    assert(v@ =~= events_shifted(old_v, offset));
}

fn reflect_events(v: &Vec<Event>, s: Duration, e: Duration) -> (r: Vec<Event>)
    requires
        seq_reflect_fits(v@, s, e),
    ensures
        r@ == events_reflected(v@, s, e),
{
    let n = v.len();
    let mut r: Vec<Event> = Vec::new();
    let mut i: usize = 0;
    while i < n
        invariant
            n == v@.len(),
            i <= n,
            seq_reflect_fits(v@, s, e),
            r@.len() == i,
            forall|k: int| 0 <= k < i ==> #[trigger] r@[k] == event_reflected(v@[n - 1 - k], s, e),
        decreases n - i,
    {
        let x = v[n - 1 - i];
        assert(reflect_fits(v@[n - 1 - i], s, e));
        let off = x.start.minus(s);
        let back = e.minus(off);
        let st = back.minus(x.duration);
        r.push(Event { start: st, duration: x.duration, volume: x.volume, pitch: x.pitch });
        i = i + 1;
    }
    assert(r@ =~= events_reflected(v@, s, e));
    r
}

fn scale_events(v: &mut Vec<Event>, s: Duration, f: Ratio)
    requires
        seq_scale_fits(old(v)@, s, f),
    ensures
        final(v)@ == old(v)@.map_values(|x: Event| event_scaled(x, s, f)),
{
    let ghost old_v = v@;
    let mut i: usize = 0;
    while i < v.len()
        invariant
            i <= v@.len(),
            v@.len() == old_v.len(),
            seq_scale_fits(old_v, s, f),
            forall|k: int| i <= k < v@.len() ==> #[trigger] v@[k] == old_v[k],
            forall|k: int| 0 <= k < i ==> #[trigger] v@[k] == event_scaled(old_v[k], s, f),
        decreases v@.len() - i,
    {
        let x = v[i];
        assert(scale_fits(old_v[i as int], s, f));
        let off = x.start.minus(s).times(f);
        let st = s.plus(off);
        let du = x.duration.times(f);
        v.set(i, Event { start: st, duration: du, volume: x.volume, pitch: x.pitch });
        i = i + 1;
    }
    assert(v@ =~= old_v.map_values(|x: Event| event_scaled(x, s, f)));
}

/// Two durations are equally long.
fn same_length(a: &Duration, b: &Duration) -> (r: bool)
    ensures
        r == dur_eq(*a, *b),
{
    a.at_most(b) && b.at_most(a)
}

fn precedes_exec(a: &Event, b: &Event, by_start: bool) -> (r: bool)
    ensures
        r == precedes(*a, *b, by_start),
{
    if by_start {
        a.start.less_than(&b.start)
    } else if a.start.less_than(&b.start) {
        true
    } else if !same_length(&a.start, &b.start) {
        false
    } else if a.duration.less_than(&b.duration) {
        true
    } else if !same_length(&a.duration, &b.duration) {
        false
    } else if a.volume.0 < b.volume.0 {
        true
    } else if a.volume.0 != b.volume.0 {
        false
    } else {
        a.pitch.octave() < b.pitch.octave() || (a.pitch.octave() == b.pitch.octave()
            && a.pitch.note_num() < b.pitch.note_num())
    }
}

fn insert_event(s: Vec<Event>, x: Event, by_start: bool) -> (r: Vec<Event>)
    ensures
        r@ == insert_sorted(s@, x, by_start),
    decreases s@.len(),
{
    let mut s = s;
    if s.len() == 0 {
        let mut r: Vec<Event> = Vec::new();
        r.push(x);
        assert(r@ =~= seq![x]);
        r
    } else {
        let last = s[s.len() - 1];
        if precedes_exec(&x, &last, by_start) {
            let ghost s0 = s@;
            s.pop();
            assert(s@ =~= s0.drop_last());
            let mut r = insert_event(s, x, by_start);
            r.push(last);
            r
        } else {
            s.push(x);
            s
        }
    }
}

/// The events sorted stably, by start alone or in the order of events.
fn sort_events(v: &Vec<Event>, by_start: bool) -> (r: Vec<Event>)
    ensures
        r@ == sorted_events(v@, by_start),
{
    let mut r: Vec<Event> = Vec::new();
    let mut i: usize = 0;
    while i < v.len()
        invariant
            i <= v@.len(),
            r@ == sorted_events(v@.take(i as int), by_start),
        decreases v@.len() - i,
    {
        assert(v@.take(i + 1).drop_last() =~= v@.take(i as int));
        r = insert_event(r, v[i], by_start);
        i = i + 1;
    }
    assert(v@.take(v@.len() as int) =~= v@);
    r
}

impl Event {
    /// When the event ends: its start plus its duration.
    pub fn get_end(&self, time_signature: TimeSignature) -> (d: Duration)
        requires
            end_fits(*self),
        ensures
            d == event_end(*self),
    {
        self.start.plus(self.duration)
    }
}

impl Track {
    /// When the track starts, rests included.
    pub fn get_start(&self) -> (r: Option<Duration>)
        ensures
            r == track_start(self@),
    {
        min_option(min_start_of(&self.events), min_start_of(&self.rests))
    }

    /// When the track ends, rests included.
    pub fn get_end(&self, time_signature: TimeSignature) -> (r: Option<Duration>)
        requires
            ends_fit(self@),
        ensures
            r == track_end(self@),
    {
        max_option(max_end_of(&self.events), max_end_of(&self.rests))
    }

    /// How long the track lasts from its start to its end, rests included; nothing for an
    /// empty track.
    pub fn get_duration(&self, time_signature: TimeSignature) -> (d: Duration)
        requires
            span_fits(self@),
        ensures
            d == track_duration(self@, time_signature),
    {
        match self.get_start() {
            Some(start) => match self.get_end(time_signature) {
                Some(end) => end.minus(start),
                None => Duration::zero(time_signature),
            },
            None => Duration::zero(time_signature),
        }
    }

    /// Move every event and rest later by `offset`. With `insert_rests`, a rest fills the
    /// gap that opens before the old start.
    pub fn shift_by(&mut self, offset: Duration, insert_rests: bool)
        requires
            shift_fits(old(self)@, offset),
        ensures
            final(self)@ == track_shifted(old(self)@, offset, insert_rests),
    {
        if let Some(previous_start) = self.get_start() {
            shift_events(&mut self.events, offset);
            shift_events(&mut self.rests, offset);
            if !offset.is_zero() && insert_rests {
                let rest_event = Event {
                    start: previous_start,
                    duration: offset,
                    volume: Volume(0),
                    pitch: Pitch::none(),
                };
                let ghost before = self.rests@;
                self.rests.insert(0, rest_event);
                assert(self.rests@ =~= seq![rest_event] + before);
            }
        }
    }

    /// Move every pitch of the track's events by `semitones`.
    pub fn transpose(&mut self, semitones: i8)
        requires
            transposes_fit(old(self)@, semitones as int),
        ensures
            final(self)@ == track_transposed(old(self)@, semitones as int),
    {
        let ghost old_events = self.events@;
        let mut i: usize = 0;
        while i < self.events.len()
            invariant
                i <= self.events@.len(),
                self.identifier == old(self).identifier,
                self.instrument == old(self).instrument,
                self.rests@ == old(self).rests@,
                old_events == old(self).events@,
                self.events@.len() == old_events.len(),
                transposes_fit(old(self)@, semitones as int),
                forall|k: int| i <= k < self.events@.len() ==> #[trigger] self.events@[k] == old_events[k],
                forall|k: int|
                    0 <= k < i ==> #[trigger] self.events@[k] == event_transposed(
                        old_events[k],
                        semitones as int,
                    ),
            decreases self.events@.len() - i,
        {
            let mut e = self.events[i];
            assert(e == old_events[i as int]);
            assert(old(self)@.events[i as int] == old_events[i as int]);
            assert(transpose_fits(
                old_events[i as int].pitch.spec_octave() as int,
                old_events[i as int].pitch.spec_note_num() as int,
                semitones as int,
            ));
            e.pitch.transpose(semitones);
            self.events.set(i, e);
            i = i + 1;
        }
        assert(self.events@ =~= old_events.map_values(|e: Event| event_transposed(e, semitones as int)));
    }

    /// Play the track backwards, keeping it within its start and end.
    pub fn reverse(&mut self, time_signature: TimeSignature)
        requires
            reverse_fits(old(self)@),
        ensures
            final(self)@ == track_reversed(old(self)@),
    {
        let start = self.get_start();
        let end = self.get_end(time_signature);
        match (start, end) {
            (Some(s), Some(e)) => {
                let events = reflect_events(&self.events, s, e);
                let rests = reflect_events(&self.rests, s, e);
                self.events = events;
                self.rests = rests;
            },
            _ => {},
        }
    }

    /// Scale all timings toward the start of the track by the magnitude of the factor; a
    /// factor of 1/2 makes the track half as long. A negative factor also reverses it.
    pub fn compress(&mut self, time_signature: TimeSignature, compression: TimeCompression)
        requires
            compress_fits(old(self)@, compression),
        ensures
            final(self)@ == track_compressed(old(self)@, compression),
    {
        let factor = compression.0;
        if factor.is_negative() {
            self.reverse(time_signature);
        }
        let num = factor.numer();
        let den = factor.denom();
        let abs_num: isize = if num < 0 {
            -num
        } else {
            num
        };
        let n: u32 = abs_num as u32;
        let d: u32 = den as u32;
        let f = Ratio::new(n, d);
        let start = self.get_start();
        let end = self.get_end(time_signature);
        match (start, end) {
            (Some(s), Some(_)) => {
                scale_events(&mut self.events, s, f);
                scale_events(&mut self.rests, s, f);
            },
            _ => {},
        }
    }

    /// The events, sorted by start, follow one another with no gap and no overlap. Gaps
    /// should be filled with rests, but this does not do that.
    pub fn validate_contiguous(&self) -> (b: bool)
        requires
            seq_ends_fit(self.events@),
        ensures
            b == track_contiguous(self@),
    {
        let all_events = sort_events(&self.events, true);
        let ghost s = all_events@;
        proof {
            lemma_sorted_events_from(self.events@, true);
        }
        if all_events.len() == 0 {
            return true;
        }
        let mut current_time = all_events[0].start;
        let mut i: usize = 0;
        while i < all_events.len()
            invariant
                s == all_events@,
                s == sorted_events(self.events@, true),
                s.len() == self.events@.len(),
                forall|k: int| 0 <= k < s.len() ==> self.events@.contains(#[trigger] s[k]),
                seq_ends_fit(self.events@),
                0 <= i <= s.len(),
                contiguous_from(s, 0, s[0].start) == contiguous_from(s, i as int, current_time),
            decreases s.len() - i,
        {
            let event = all_events[i];
            if current_time.less_than(&event.start) {
                return false;
            }
            if event.start.less_than(&current_time) {
                return false;
            }
            proof {
                assert(self.events@.contains(s[i as int]));
                let j = choose|j: int| 0 <= j < self.events@.len() && self.events@[j] == s[i as int];
                assert(end_fits(self.events@[j]));
            }
            current_time = event.get_end(current_time.time_signature);
            i = i + 1;
        }
        true
    }

    /// The events (rests left out) that start after `start` (or at it, unless
    /// `start_exclusive`) and no later than `end`, sorted.
    pub fn get_events_starting_between(&self, start: Duration, end: Duration, start_exclusive: bool)
        -> (r: Vec<Event>)
        ensures
            r@ == events_between(self@, start, end, start_exclusive),
    {
        if (start_exclusive && end.at_most(&start)) || end.less_than(&start) {
            return Vec::new();
        }
        let mut es: Vec<Event> = Vec::new();
        let mut i: usize = 0;
        while i < self.events.len()
            invariant
                i <= self.events@.len(),
                es@ == filter_between(self.events@.take(i as int), start, end, start_exclusive),
            decreases self.events@.len() - i,
        {
            let e = self.events[i];
            assert(self.events@.take(i + 1).drop_last() =~= self.events@.take(i as int));
            let after_start = if start_exclusive {
                start.less_than(&e.start)
            } else {
                start.at_most(&e.start)
            };
            if after_start && e.start.at_most(&end) {
                es.push(e);
            }
            i = i + 1;
        }
        assert(self.events@.take(self.events@.len() as int) =~= self.events@);
        sort_events(&es, false)
    }

    /// The two tracks played as one: the events and the rests of both, sorted. Both must
    /// be for the same instrument.
    pub fn add(self, rhs: Track) -> (r: Track)
        requires
            self.instrument == rhs.instrument,
        ensures
            r@ == track_sum(self@, rhs@),
    {
        let mut events = self.events;
        let mut rest_events = self.rests;
        let mut more_events = rhs.events;
        let mut more_rests = rhs.rests;
        events.append(&mut more_events);
        rest_events.append(&mut more_rests);
        let events = sort_events(&events, false);
        let rests = sort_events(&rest_events, false);
        Track { identifier: self.identifier, instrument: self.instrument, events, rests }
    }
}


/// The earliest start among the tracks, the first of equally early ones.
pub open spec fn tracks_start(s: Seq<TrackV>) -> Option<Duration>
    decreases s.len(),
{
    if s.len() == 0 {
        None
    } else {
        min_opt(tracks_start(s.drop_last()), track_start(s.last()))
    }
}

/// The latest end among the tracks, the last of equally late ones.
pub open spec fn tracks_end(s: Seq<TrackV>) -> Option<Duration>
    decreases s.len(),
{
    if s.len() == 0 {
        None
    } else {
        max_opt(tracks_end(s.drop_last()), track_end(s.last()))
    }
}

/// Every end in every track can be computed.
pub open spec fn all_ends_fit(s: Seq<TrackV>) -> bool {
    forall|k: int| 0 <= k < s.len() ==> ends_fit(#[trigger] s[k])
}

/// How long a composition lasts from its first start to its last end.
pub open spec fn composition_duration(c: CompositionV) -> Duration {
    match (tracks_start(c.tracks), tracks_end(c.tracks)) {
        (Some(s), Some(e)) => dur_minus(e, s),
        _ => zero_duration(c.time_signature),
    }
}

/// The duration of `m` whole measures in `ts`.
pub open spec fn measures_duration(m: int, ts: TimeSignature) -> Duration {
    Duration {
        value: beats_note_value(ts, total_beats_spec(m, Ratio::lowest(0, 1), ts)),
        time_signature: ts,
    }
}

/// `end` rounded up to a whole number of measures.
pub open spec fn rounded_end(end: Duration, ts: TimeSignature) -> Duration {
    let lms = measures_duration(whole_measures_spec(end), ts);
    dur_plus(
        lms,
        if is_zero_dur(dur_minus(end, lms)) {
            zero_duration(ts)
        } else {
            measures_duration(1, ts)
        },
    )
}

/// The arithmetic of `rounded_end` can be computed.
pub open spec fn round_fits(end: Duration, ts: TimeSignature) -> bool {
    let lms = measures_duration(whole_measures_spec(end), ts);
    let extra = if is_zero_dur(dur_minus(end, lms)) {
        zero_duration(ts)
    } else {
        measures_duration(1, ts)
    };
    &&& ts.1 != 0
    &&& duration_fits(end)
    &&& whole_measures_spec(end) * ts.0 <= u32::MAX
    &&& minus_fits(end, lms)
    &&& sum_fits(lms.value.0, extra.value.0)
}

/// The track with a rest from its end up to `re`, when it ends before `re`.
pub open spec fn pad_track(t: TrackV, re: Duration) -> TrackV {
    match track_end(t) {
        Some(te) => if dur_lt(te, re) {
            TrackV { rests: t.rests.push(rest_at(te, dur_minus(re, te))), ..t }
        } else {
            t
        },
        None => t,
    }
}

/// The rest of `pad_track` can be computed.
pub open spec fn pad_fits(t: TrackV, re: Duration) -> bool {
    match track_end(t) {
        Some(te) => dur_lt(te, re) ==> minus_fits(re, te),
        None => true,
    }
}

/// Tracks with one identifier are for one instrument.
pub open spec fn instruments_agree(s: Seq<TrackV>) -> bool {
    forall|i: int, j: int|
        0 <= i < s.len() && 0 <= j < s.len() && (#[trigger] s[i]).identifier == (
        #[trigger] s[j]).identifier ==> s[i].instrument == s[j].instrument
}

/// The position of the last track of `m` with identifier `id`; -1 when there is none.
pub open spec fn last_with_id(m: Seq<TrackV>, id: TrackId) -> int
    decreases m.len(),
{
    if m.len() == 0 {
        -1
    } else if m.last().identifier == id {
        m.len() - 1
    } else {
        last_with_id(m.drop_last(), id)
    }
}

/// `t` joined to the track of `m` with its identifier, or added after the others.
pub open spec fn merge_into(m: Seq<TrackV>, t: TrackV) -> Seq<TrackV> {
    let j = last_with_id(m, t.identifier);
    if j < 0 {
        m.push(t)
    } else {
        m.update(j, track_sum(m[j], t))
    }
}

/// The tracks with equal identifiers joined into one, in the order their identifiers first
/// appear.
pub open spec fn merged_tracks(s: Seq<TrackV>) -> Seq<TrackV>
    decreases s.len(),
{
    if s.len() == 0 {
        Seq::empty()
    } else {
        merge_into(merged_tracks(s.drop_last()), s.last())
    }
}

proof fn lemma_last_with_id(m: Seq<TrackV>, id: TrackId)
    ensures
        -1 <= last_with_id(m, id) < m.len(),
        last_with_id(m, id) >= 0 ==> m[last_with_id(m, id)].identifier == id,
        last_with_id(m, id) < 0 ==> forall|k: int| 0 <= k < m.len() ==> (#[trigger] m[k]).identifier != id,
        forall|k: int| last_with_id(m, id) < k < m.len() ==> (#[trigger] m[k]).identifier != id,
    decreases m.len(),
{
    if m.len() > 0 {
        lemma_last_with_id(m.drop_last(), id);
        assert forall|k: int| last_with_id(m, id) < k < m.len() implies (#[trigger] m[k]).identifier != id by {
            if k < m.len() - 1 {
                assert(m.drop_last()[k] == m[k]);
            }
        }
        if last_with_id(m, id) < 0 {
            assert forall|k: int| 0 <= k < m.len() implies (#[trigger] m[k]).identifier != id by {
                if k < m.len() - 1 {
                    assert(m.drop_last()[k] == m[k]);
                }
            }
        }
    }
}

impl Composition {
    /// When the composition starts: the earliest start of its tracks.
    pub fn get_start(&self) -> (r: Option<Duration>)
        ensures
            r == tracks_start(self@.tracks),
    {
        let mut best: Option<Duration> = None;
        let mut i: usize = 0;
        while i < self.tracks.len()
            invariant
                i <= self.tracks@.len(),
                best == tracks_start(self@.tracks.take(i as int)),
            decreases self.tracks@.len() - i,
        {
            assert(self@.tracks.take(i + 1).drop_last() =~= self@.tracks.take(i as int));
            let s = self.tracks[i].get_start();
            best = min_option(best, s);
            i = i + 1;
        }
        assert(self@.tracks.take(i as int) =~= self@.tracks);
        best
    }

    /// When the composition ends: the latest end of its tracks.
    pub fn get_end(&self) -> (r: Option<Duration>)
        requires
            all_ends_fit(self@.tracks),
        ensures
            r == tracks_end(self@.tracks),
    {
        let mut best: Option<Duration> = None;
        let mut i: usize = 0;
        while i < self.tracks.len()
            invariant
                i <= self.tracks@.len(),
                all_ends_fit(self@.tracks),
                best == tracks_end(self@.tracks.take(i as int)),
            decreases self.tracks@.len() - i,
        {
            assert(self@.tracks.take(i + 1).drop_last() =~= self@.tracks.take(i as int));
            assert(ends_fit(self@.tracks[i as int]));
            let e = self.tracks[i].get_end(self.time_signature);
            best = max_option(best, e);
            i = i + 1;
        }
        assert(self@.tracks.take(i as int) =~= self@.tracks);
        best
    }

    /// How long the composition lasts from its first start to its last end.
    pub fn get_duration(&self) -> (d: Duration)
        requires
            all_ends_fit(self@.tracks),
            tracks_start(self@.tracks) matches Some(s) ==> (tracks_end(self@.tracks) matches Some(e)
                ==> minus_fits(e, s)),
        ensures
            d == composition_duration(self@),
    {
        let start = self.get_start();
        let end = self.get_end();
        match (start, end) {
            (Some(s), Some(e)) => e.minus(s),
            _ => Duration::zero(self.time_signature),
        }
    }

    /// Move every track later by `offset`.
    pub fn shift_by(&mut self, offset: Duration, insert_rests: bool)
        requires
            forall|k: int| 0 <= k < old(self)@.tracks.len() ==> shift_fits(#[trigger] old(self)@.tracks[k], offset),
        ensures
            final(self)@.time_signature == old(self)@.time_signature,
            final(self)@.tracks == old(self)@.tracks.map_values(
                |t: TrackV| track_shifted(t, offset, insert_rests),
            ),
    {
        let mut rest: Vec<Track> = Vec::new();
        core::mem::swap(&mut rest, &mut self.tracks);
        let ghost orig = rest@;
        assert(tracks_view(orig) == old(self)@.tracks);
        let mut done: Vec<Track> = Vec::new();
        while rest.len() > 0
            invariant
                done@.len() + rest@.len() == orig.len(),
                rest@ == orig.skip(done@.len() as int),
                forall|k: int| 0 <= k < orig.len() ==> shift_fits(#[trigger] tracks_view(orig)[k], offset),
                forall|k: int|
                    0 <= k < done@.len() ==> (#[trigger] done@[k])@ == track_shifted(
                        orig[k]@,
                        offset,
                        insert_rests,
                    ),
            decreases rest@.len(),
        {
            let ghost n = done@.len();
            let mut t = rest.remove(0);
            assert(t == orig[n as int]);
            assert(tracks_view(orig)[n as int] == t@);
            t.shift_by(offset, insert_rests);
            done.push(t);
            assert(rest@ =~= orig.skip(done@.len() as int));
        }
        self.tracks = done;
        assert(self@.tracks =~= old(self)@.tracks.map_values(
            |t: TrackV| track_shifted(t, offset, insert_rests),
        ));
    }

    /// Move every pitch of every track by `semitones`.
    pub fn transpose(&mut self, semitones: i8)
        requires
            forall|k: int|
                0 <= k < old(self)@.tracks.len() ==> transposes_fit(
                    #[trigger] old(self)@.tracks[k],
                    semitones as int,
                ),
        ensures
            final(self)@.time_signature == old(self)@.time_signature,
            final(self)@.tracks == old(self)@.tracks.map_values(
                |t: TrackV| track_transposed(t, semitones as int),
            ),
    {
        let mut rest: Vec<Track> = Vec::new();
        core::mem::swap(&mut rest, &mut self.tracks);
        let ghost orig = rest@;
        assert(tracks_view(orig) == old(self)@.tracks);
        let mut done: Vec<Track> = Vec::new();
        while rest.len() > 0
            invariant
                done@.len() + rest@.len() == orig.len(),
                rest@ == orig.skip(done@.len() as int),
                forall|k: int|
                    0 <= k < orig.len() ==> transposes_fit(#[trigger] tracks_view(orig)[k], semitones as int),
                forall|k: int|
                    0 <= k < done@.len() ==> (#[trigger] done@[k])@ == track_transposed(
                        orig[k]@,
                        semitones as int,
                    ),
            decreases rest@.len(),
        {
            let ghost n = done@.len();
            let mut t = rest.remove(0);
            assert(t == orig[n as int]);
            assert(tracks_view(orig)[n as int] == t@);
            t.transpose(semitones);
            done.push(t);
            assert(rest@ =~= orig.skip(done@.len() as int));
        }
        self.tracks = done;
        assert(self@.tracks =~= old(self)@.tracks.map_values(
            |t: TrackV| track_transposed(t, semitones as int),
        ));
    }

    /// Scale all timings of every track toward its start by the magnitude of the factor; a
    /// negative factor also reverses each track.
    pub fn compress(&mut self, compression: TimeCompression)
        requires
            forall|k: int|
                0 <= k < old(self)@.tracks.len() ==> compress_fits(
                    #[trigger] old(self)@.tracks[k],
                    compression,
                ),
        ensures
            final(self)@.time_signature == old(self)@.time_signature,
            final(self)@.tracks == old(self)@.tracks.map_values(
                |t: TrackV| track_compressed(t, compression),
            ),
    {
        let mut rest: Vec<Track> = Vec::new();
        core::mem::swap(&mut rest, &mut self.tracks);
        let ghost orig = rest@;
        assert(tracks_view(orig) == old(self)@.tracks);
        let mut done: Vec<Track> = Vec::new();
        while rest.len() > 0
            invariant
                done@.len() + rest@.len() == orig.len(),
                rest@ == orig.skip(done@.len() as int),
                forall|k: int|
                    0 <= k < orig.len() ==> compress_fits(#[trigger] tracks_view(orig)[k], compression),
                forall|k: int|
                    0 <= k < done@.len() ==> (#[trigger] done@[k])@ == track_compressed(
                        orig[k]@,
                        compression,
                    ),
            decreases rest@.len(),
        {
            let ghost n = done@.len();
            let mut t = rest.remove(0);
            assert(t == orig[n as int]);
            assert(tracks_view(orig)[n as int] == t@);
            t.compress(self.time_signature, compression);
            done.push(t);
            assert(rest@ =~= orig.skip(done@.len() as int));
        }
        self.tracks = done;
        assert(self@.tracks =~= old(self)@.tracks.map_values(
            |t: TrackV| track_compressed(t, compression),
        ));
    }

    /// Pad every track that ends early with a rest up to the end of the last measure, the end
    /// of the composition rounded up to whole measures. `None` for a composition with no
    /// events or rests.
    pub fn add_rests_to_last_measure(&mut self) -> (r: Option<()>)
        requires
            all_ends_fit(old(self)@.tracks),
            tracks_end(old(self)@.tracks) matches Some(e) ==> {
                &&& round_fits(e, old(self).time_signature)
                &&& forall|k: int|
                    0 <= k < old(self)@.tracks.len() ==> pad_fits(
                        #[trigger] old(self)@.tracks[k],
                        rounded_end(e, old(self).time_signature),
                    )
            },
        ensures
            r is None <==> tracks_end(old(self)@.tracks) is None,
            final(self)@.time_signature == old(self)@.time_signature,
            match tracks_end(old(self)@.tracks) {
                None => final(self)@ == old(self)@,
                Some(e) => final(self)@.tracks == old(self)@.tracks.map_values(
                    |t: TrackV| pad_track(t, rounded_end(e, old(self).time_signature)),
                ),
            },
    {
        let end = match self.get_end() {
            Some(e) => e,
            None => {
                return None;
            },
        };
        let ts = self.time_signature;
        let last_measure_start = Duration::measures_with_ts(end.get_whole_measures(), ts);
        let remaining_beats = end.minus(last_measure_start);
        let extra = if !remaining_beats.is_zero() {
            Duration::measures_with_ts(1, ts)
        } else {
            Duration::zero(ts)
        };
        let re = last_measure_start.plus(extra);
        assert(re == rounded_end(end, ts));
        let mut rest: Vec<Track> = Vec::new();
        core::mem::swap(&mut rest, &mut self.tracks);
        let ghost orig = rest@;
        assert(tracks_view(orig) == old(self)@.tracks);
        let mut done: Vec<Track> = Vec::new();
        while rest.len() > 0
            invariant
                done@.len() + rest@.len() == orig.len(),
                rest@ == orig.skip(done@.len() as int),
                forall|k: int| 0 <= k < orig.len() ==> ends_fit(#[trigger] tracks_view(orig)[k]),
                forall|k: int| 0 <= k < orig.len() ==> pad_fits(#[trigger] tracks_view(orig)[k], re),
                forall|k: int| 0 <= k < done@.len() ==> (#[trigger] done@[k])@ == pad_track(orig[k]@, re),
            decreases rest@.len(),
        {
            let ghost n = done@.len();
            let mut t = rest.remove(0);
            assert(t == orig[n as int]);
            assert(tracks_view(orig)[n as int] == t@);
            if let Some(track_end) = t.get_end(ts) {
                if track_end.less_than(&re) {
                    let rest_event = Event {
                        start: track_end,
                        duration: re.minus(track_end),
                        volume: Volume(0),
                        pitch: Pitch::none(),
                    };
                    t.rests.push(rest_event);
                }
            }
            done.push(t);
            assert(rest@ =~= orig.skip(done@.len() as int));
        }
        self.tracks = done;
        assert(self@.tracks =~= old(self)@.tracks.map_values(|t: TrackV| pad_track(t, re)));
        Some(())
    }

    /// The tracks with equal identifiers joined into one. The time signatures must agree;
    /// the tracks of `rhs` are not taken in.
    pub fn add(self, rhs: Composition) -> (r: Composition)
        requires
            self.time_signature == rhs.time_signature,
            instruments_agree(self@.tracks),
        ensures
            r@ == (CompositionV { tracks: merged_tracks(self@.tracks), time_signature: self.time_signature }),
    {
        let ghost orig = self.tracks@;
        let ghost origv = self@.tracks;
        let mut rest = self.tracks;
        let mut map: Vec<Track> = Vec::new();
        let mut n: usize = 0;
        let total = rest.len();
        while rest.len() > 0
            invariant
                total == orig.len(),
                origv == tracks_view(orig),
                instruments_agree(origv),
                n + rest@.len() == orig.len(),
                rest@ == orig.skip(n as int),
                tracks_view(map@) == merged_tracks(origv.take(n as int)),
                forall|k: int, i: int|
                    0 <= k < map@.len() && 0 <= i < orig.len() && (#[trigger] map@[k]).identifier
                        == (#[trigger] orig[i]).identifier ==> map@[k].instrument == orig[i].instrument,
            decreases rest@.len(),
        {
            let track = rest.remove(0);
            assert(track == orig[n as int]);
            assert(origv.take(n + 1).drop_last() =~= origv.take(n as int));
            assert(origv[n as int] == track@);
            let ghost mv = tracks_view(map@);
            proof {
                lemma_last_with_id(mv, track.identifier);
            }
            let mut j = map.len();
            while j > 0 && map[j - 1].identifier != track.identifier
                invariant
                    j <= map@.len(),
                    mv == tracks_view(map@),
                    forall|k: int| j <= k < map@.len() ==> (#[trigger] map@[k]).identifier != track.identifier,
                decreases j,
            {
                j = j - 1;
            }
            proof {
                if j > 0 {
                    assert(mv[j - 1] == map@[j - 1]@);
                    assert(last_with_id(mv, track.identifier) == j - 1) by {
                        if last_with_id(mv, track.identifier) != j - 1 {
                            if last_with_id(mv, track.identifier) > j - 1 {
                                assert(map@[last_with_id(mv, track.identifier)]@ == mv[last_with_id(mv, track.identifier)]);
                            }
                        }
                    }
                } else {
                    assert forall|k: int| 0 <= k < mv.len() implies (#[trigger] mv[k]).identifier != track.identifier by {
                        assert(map@[k]@ == mv[k]);
                    }
                }
            }
            let ghost old_map = map@;
            if j > 0 {
                let m = map.remove(j - 1);
                assert(m == old_map[j - 1]);
                assert(m.identifier == track.identifier);
                assert(m.instrument == track.instrument);
                let joined = m.add(track);
                map.insert(j - 1, joined);
                assert(map@ =~= old_map.update(j - 1, joined));
                assert(tracks_view(map@) =~= mv.update(j - 1, track_sum(mv[j - 1], track@)));
                assert forall|k: int, i: int|
                    0 <= k < map@.len() && 0 <= i < orig.len() && (#[trigger] map@[k]).identifier
                        == (#[trigger] orig[i]).identifier implies map@[k].instrument
                    == orig[i].instrument by {
                    if k == j - 1 {
                        assert(old_map[k].identifier == orig[i].identifier);
                    } else {
                        assert(map@[k] == old_map[k]);
                    }
                }
            } else {
                map.push(track);
                assert(tracks_view(map@) =~= mv.push(track@));
                assert forall|k: int, i: int|
                    0 <= k < map@.len() && 0 <= i < orig.len() && (#[trigger] map@[k]).identifier
                        == (#[trigger] orig[i]).identifier implies map@[k].instrument
                    == orig[i].instrument by {
                    if k == old_map.len() {
                        assert(origv[i] == orig[i]@);
                        assert(origv[n as int].identifier == origv[i].identifier);
                    } else {
                        assert(map@[k] == old_map[k]);
                    }
                }
            }
            n = n + 1;
            assert(rest@ =~= orig.skip(n as int));
        }
        assert(origv.take(n as int) =~= origv);
        Composition { tracks: map, time_signature: self.time_signature }
    }
}

/// Where `Track::append` puts the appended track: the end of the track, or the start of time
/// for an empty track.
pub open spec fn append_base(r: TrackV, ts: TimeSignature) -> Duration {
    match track_end(r) {
        Some(e) => e,
        None => zero_duration(ts),
    }
}

/// The events and rests of `t` moved to the end of `r` and added after those of `r`.
pub open spec fn track_appended(r: TrackV, t: TrackV, ts: TimeSignature) -> TrackV {
    let b = append_base(r, ts);
    TrackV {
        events: r.events + events_shifted(t.events, b),
        rests: r.rests + events_shifted(t.rests, b),
        ..r
    }
}

/// `t` can be appended to `r`.
pub open spec fn append_fits(r: TrackV, t: TrackV, ts: TimeSignature) -> bool {
    ends_fit(r) && shift_fits(t, append_base(r, ts))
}

/// The composition with every track moved later by `offset`.
pub open spec fn comp_shifted(c: CompositionV, offset: Duration, insert_rests: bool) -> CompositionV {
    CompositionV {
        tracks: c.tracks.map_values(|t: TrackV| track_shifted(t, offset, insert_rests)),
        ..c
    }
}

/// Every track of the composition can be moved by `offset`.
pub open spec fn comp_shift_fits(c: CompositionV, offset: Duration) -> bool {
    forall|k: int| 0 <= k < c.tracks.len() ==> shift_fits(#[trigger] c.tracks[k], offset)
}

/// The composition with every pitch moved by `semitones`.
pub open spec fn comp_transposed(c: CompositionV, semitones: int) -> CompositionV {
    CompositionV { tracks: c.tracks.map_values(|t: TrackV| track_transposed(t, semitones)), ..c }
}

/// Every pitch of the composition can be moved by `semitones`.
pub open spec fn comp_transposes_fit(c: CompositionV, semitones: int) -> bool {
    forall|k: int| 0 <= k < c.tracks.len() ==> transposes_fit(#[trigger] c.tracks[k], semitones)
}

/// The composition with every track compressed by `f`.
pub open spec fn comp_compressed(c: CompositionV, f: TimeCompression) -> CompositionV {
    CompositionV { tracks: c.tracks.map_values(|t: TrackV| track_compressed(t, f)), ..c }
}

/// Every track of the composition can be compressed by `f`.
pub open spec fn comp_compress_fits(c: CompositionV, f: TimeCompression) -> bool {
    forall|k: int| 0 <= k < c.tracks.len() ==> compress_fits(#[trigger] c.tracks[k], f)
}

/// The length of the composition can be computed.
pub open spec fn comp_duration_fits(c: CompositionV) -> bool {
    &&& all_ends_fit(c.tracks)
    &&& tracks_start(c.tracks) matches Some(s) ==> (tracks_end(c.tracks) matches Some(e)
        ==> minus_fits(e, s))
}

impl Track {
    /// Add the events and rests of `other` after this track: moved so that their times count
    /// from the end of this track, or from the start of time when this track is empty.
    pub fn append(&mut self, other: &Track, time_signature: TimeSignature)
        requires
            append_fits(old(self)@, other@, time_signature),
        ensures
            final(self)@ == track_appended(old(self)@, other@, time_signature),
    {
        let base = match self.get_end(time_signature) {
            Some(e) => e,
            None => Duration::zero(time_signature),
        };
        let ghost old_events = self.events@;
        let ghost old_rests = self.rests@;
        let mut i: usize = 0;
        while i < other.events.len()
            invariant
                i <= other.events@.len(),
                seq_shift_fits(other.events@, base),
                self.rests@ == old_rests,
                self.identifier == old(self).identifier,
                self.instrument == old(self).instrument,
                self.events@ == old_events + events_shifted(other.events@, base).take(i as int),
            decreases other.events@.len() - i,
        {
            let mut e = other.events[i];
            assert(sum_fits(other.events@[i as int].start.value.0, base.value.0));
            e.start.add_assign(base);
            self.events.push(e);
            i = i + 1;
            assert(self.events@ =~= old_events + events_shifted(other.events@, base).take(i as int));
        }
        let mut i: usize = 0;
        while i < other.rests.len()
            invariant
                i <= other.rests@.len(),
                seq_shift_fits(other.rests@, base),
                self.events@ == old_events + events_shifted(other.events@, base).take(
                    other.events@.len() as int,
                ),
                self.identifier == old(self).identifier,
                self.instrument == old(self).instrument,
                self.rests@ == old_rests + events_shifted(other.rests@, base).take(i as int),
            decreases other.rests@.len() - i,
        {
            let mut e = other.rests[i];
            assert(sum_fits(other.rests@[i as int].start.value.0, base.value.0));
            e.start.add_assign(base);
            self.rests.push(e);
            i = i + 1;
            assert(self.rests@ =~= old_rests + events_shifted(other.rests@, base).take(i as int));
        }
        assert(events_shifted(other.events@, base).take(other.events@.len() as int) =~= events_shifted(other.events@, base));
        assert(events_shifted(other.rests@, base).take(other.rests@.len() as int) =~= events_shifted(other.rests@, base));
    }
}

/// A rational factor by which the `>>` transform speeds a passage up or slows it down; a
/// negative factor also reverses it.
#[derive(Debug, Clone, Copy)]
pub struct TimeCompression(pub SignedRatio);

#[derive(Debug, Copy, Clone, PartialEq, Eq, Hash, Structural)]
pub enum Instrument {
    SineWave,
    Piano,
    Bass,
    // percussion
    BassDrum,
    HiHatOpen,
    HiHatClosed,
    Snare,
    Snare2,
    BongoHigh,
    BongoLow,
    Shaker1,
    Shaker2,
}

/// Every instrument, in declaration order.
pub open spec fn all_instruments() -> Seq<Instrument> {
    seq![
        Instrument::SineWave,
        Instrument::Piano,
        Instrument::Bass,
        Instrument::BassDrum,
        Instrument::HiHatOpen,
        Instrument::HiHatClosed,
        Instrument::Snare,
        Instrument::Snare2,
        Instrument::BongoHigh,
        Instrument::BongoLow,
        Instrument::Shaker1,
        Instrument::Shaker2,
    ]
}

/// The name of an instrument, as it is written in its declaration.
pub open spec fn instrument_name(i: Instrument) -> Seq<char> {
    match i {
        Instrument::SineWave => "SineWave"@,
        Instrument::Piano => "Piano"@,
        Instrument::Bass => "Bass"@,
        Instrument::BassDrum => "BassDrum"@,
        Instrument::HiHatOpen => "HiHatOpen"@,
        Instrument::HiHatClosed => "HiHatClosed"@,
        Instrument::Snare => "Snare"@,
        Instrument::Snare2 => "Snare2"@,
        Instrument::BongoHigh => "BongoHigh"@,
        Instrument::BongoLow => "BongoLow"@,
        Instrument::Shaker1 => "Shaker1"@,
        Instrument::Shaker2 => "Shaker2"@,
    }
}

/// The lower-case name of an instrument.
pub open spec fn instrument_lower_name(i: Instrument) -> Seq<char> {
    match i {
        Instrument::SineWave => "sinewave"@,
        Instrument::Piano => "piano"@,
        Instrument::Bass => "bass"@,
        Instrument::BassDrum => "bassdrum"@,
        Instrument::HiHatOpen => "hihatopen"@,
        Instrument::HiHatClosed => "hihatclosed"@,
        Instrument::Snare => "snare"@,
        Instrument::Snare2 => "snare2"@,
        Instrument::BongoHigh => "bongohigh"@,
        Instrument::BongoLow => "bongolow"@,
        Instrument::Shaker1 => "shaker1"@,
        Instrument::Shaker2 => "shaker2"@,
    }
}

/// The instrument whose lower-case name is `l`, if there is one.
pub open spec fn instrument_of_lower_name(l: Seq<char>) -> Option<Instrument> {
    if l == "sinewave"@ {
        Some(Instrument::SineWave)
    } else if l == "piano"@ {
        Some(Instrument::Piano)
    } else if l == "bass"@ {
        Some(Instrument::Bass)
    } else if l == "bassdrum"@ {
        Some(Instrument::BassDrum)
    } else if l == "hihatopen"@ {
        Some(Instrument::HiHatOpen)
    } else if l == "hihatclosed"@ {
        Some(Instrument::HiHatClosed)
    } else if l == "snare"@ {
        Some(Instrument::Snare)
    } else if l == "snare2"@ {
        Some(Instrument::Snare2)
    } else if l == "bongohigh"@ {
        Some(Instrument::BongoHigh)
    } else if l == "bongolow"@ {
        Some(Instrument::BongoLow)
    } else if l == "shaker1"@ {
        Some(Instrument::Shaker1)
    } else if l == "shaker2"@ {
        Some(Instrument::Shaker2)
    } else {
        None
    }
}

/// What `Instrument::parse` gives for the characters `s`: the instrument whose name matches `s`
/// without regard to ASCII case, or the message "Unknown instrument: " and the lower-cased
/// input.
pub open spec fn parse_instrument_spec(s: Seq<char>) -> Result<Instrument, Seq<char>> {
    match instrument_of_lower_name(lower_seq(s)) {
        Some(i) => Ok(i),
        None => Err("Unknown instrument: "@ + lower_seq(s)),
    }
}

impl Instrument {
    pub fn is_percussion(&self) -> (b: bool)
        ensures
            !b,
    {
        false
    }

    /// Every instrument with its name, in declaration order.
    pub fn str_values() -> (v: Vec<(Instrument, String)>)
        ensures
            v@.len() == 12,
            forall|k: int|
                0 <= k < 12 ==> #[trigger] v@[k].0 == all_instruments()[k] && v@[k].1@
                    == instrument_name(all_instruments()[k]),
    {
        let mut v: Vec<(Instrument, String)> = Vec::new();
        v.push((Instrument::SineWave, String::from_str("SineWave")));
        v.push((Instrument::Piano, String::from_str("Piano")));
        v.push((Instrument::Bass, String::from_str("Bass")));
        v.push((Instrument::BassDrum, String::from_str("BassDrum")));
        v.push((Instrument::HiHatOpen, String::from_str("HiHatOpen")));
        v.push((Instrument::HiHatClosed, String::from_str("HiHatClosed")));
        v.push((Instrument::Snare, String::from_str("Snare")));
        v.push((Instrument::Snare2, String::from_str("Snare2")));
        v.push((Instrument::BongoHigh, String::from_str("BongoHigh")));
        v.push((Instrument::BongoLow, String::from_str("BongoLow")));
        v.push((Instrument::Shaker1, String::from_str("Shaker1")));
        v.push((Instrument::Shaker2, String::from_str("Shaker2")));
        v
    }

    /// The instrument named by `s`, without regard to ASCII case.
    pub fn parse(s: &str) -> (r: Result<Instrument, String>)
        ensures
            r matches Ok(i) ==> parse_instrument_spec(s@) == Ok::<Instrument, Seq<char>>(i),
            r matches Err(e) ==> parse_instrument_spec(s@) == Err::<Instrument, Seq<char>>(e@),
    {
        let c = str_to_chars(s);
        Instrument::parse_chars(&c)
    }

    /// The instrument named by the characters `c`, without regard to ASCII case.
    pub fn parse_chars(c: &Vec<char>) -> (r: Result<Instrument, String>)
        ensures
            r matches Ok(i) ==> parse_instrument_spec(c@) == Ok::<Instrument, Seq<char>>(i),
            r matches Err(e) ==> parse_instrument_spec(c@) == Err::<Instrument, Seq<char>>(e@),
    {
        let l = chars_to_ascii_lower(c);
        if chars_are(&l, "sinewave") {
            Ok(Instrument::SineWave)
        } else if chars_are(&l, "piano") {
            Ok(Instrument::Piano)
        } else if chars_are(&l, "bass") {
            Ok(Instrument::Bass)
        } else if chars_are(&l, "bassdrum") {
            Ok(Instrument::BassDrum)
        } else if chars_are(&l, "hihatopen") {
            Ok(Instrument::HiHatOpen)
        } else if chars_are(&l, "hihatclosed") {
            Ok(Instrument::HiHatClosed)
        } else if chars_are(&l, "snare") {
            Ok(Instrument::Snare)
        } else if chars_are(&l, "snare2") {
            Ok(Instrument::Snare2)
        } else if chars_are(&l, "bongohigh") {
            Ok(Instrument::BongoHigh)
        } else if chars_are(&l, "bongolow") {
            Ok(Instrument::BongoLow)
        } else if chars_are(&l, "shaker1") {
            Ok(Instrument::Shaker1)
        } else if chars_are(&l, "shaker2") {
            Ok(Instrument::Shaker2)
        } else {
            let mut e = String::from_str("Unknown instrument: ");
            let ghost prefix = e@;
            let mut k: usize = 0;
            while k < l.len()
                invariant
                    k <= l@.len(),
                    e@ == prefix + l@.subrange(0, k as int),
                decreases l@.len() - k,
            {
                push_char(&mut e, l[k]);
                k = k + 1;
                assert(e@ =~= prefix + l@.subrange(0, k as int));
            }
            assert(l@.subrange(0, l@.len() as int) =~= l@);
            Err(e)
        }
    }
}

impl core::str::FromStr for Instrument {
    type Err = String;

    fn from_str(s: &str) -> (r: Result<Self, Self::Err>)
        ensures
            r matches Ok(i) ==> parse_instrument_spec(s@) == Ok::<Instrument, Seq<char>>(i),
            r matches Err(e) ==> parse_instrument_spec(s@) == Err::<Instrument, Seq<char>>(e@),
    {
        Instrument::parse(s)
    }
}


/// Every pitch of the track's events has a pitch class number in [0, 12), as every pitch
/// does.
pub open spec fn pitches_valid(t: TrackV) -> bool {
    forall|k: int| 0 <= k < t.events.len() ==> (#[trigger] t.events[k]).pitch.spec_note_num() < 12
}

/// Transposing a track and then transposing it back by the opposite interval gives the
/// track again.
pub proof fn lemma_track_transpose_round_trip(t: TrackV, semitones: int)
    requires
        pitches_valid(t),
        transposes_fit(t, semitones),
    ensures
        track_transposed(track_transposed(t, semitones), -semitones) == t,
{
    let u = track_transposed(t, semitones);
    let b = track_transposed(u, -semitones);
    assert forall|k: int| 0 <= k < t.events.len() implies #[trigger] b.events[k] == t.events[k] by {
        let e = t.events[k];
        assert(transpose_fits(e.pitch.spec_octave() as int, e.pitch.spec_note_num() as int, semitones));
        crate::music_primitives::lemma_transpose_round_trip(e.pitch, semitones);
        assert(u.events[k] == event_transposed(e, semitones));
    }
    assert(b.events =~= t.events);
}

/// Transposing a composition and then transposing it back by the opposite interval gives
/// the composition again.
pub proof fn lemma_comp_transpose_round_trip(c: CompositionV, semitones: int)
    requires
        forall|k: int| 0 <= k < c.tracks.len() ==> pitches_valid(#[trigger] c.tracks[k]),
        comp_transposes_fit(c, semitones),
    ensures
        comp_transposed(comp_transposed(c, semitones), -semitones) == c,
{
    let b = comp_transposed(comp_transposed(c, semitones), -semitones);
    assert forall|k: int| 0 <= k < c.tracks.len() implies #[trigger] b.tracks[k] == c.tracks[k] by {
        assert(transposes_fit(c.tracks[k], semitones));
        lemma_track_transpose_round_trip(c.tracks[k], semitones);
    }
    assert(b.tracks =~= c.tracks);
}


/// The start and the duration of every event have a positive denominator, as every note
/// value does.
pub open spec fn times_valid(s: Seq<Event>) -> bool {
    forall|k: int|
        0 <= k < s.len() ==> (#[trigger] s[k]).start.value.0.d() > 0 && s[k].duration.value.0.d() > 0
}

/// No event of `s` goes before one that comes earlier in it.
pub open spec fn in_order(s: Seq<Event>, by_start: bool) -> bool {
    forall|i: int, j: int| 0 <= i < j < s.len() ==> !precedes(#[trigger] s[j], #[trigger] s[i], by_start)
}

proof fn lemma_dur_order(a: Duration, b: Duration, c: Duration)
    requires
        a.value.0.d() > 0,
        b.value.0.d() > 0,
        c.value.0.d() > 0,
    ensures
        dur_lt(a, b) && dur_lt(b, c) ==> dur_lt(a, c),
        dur_lt(a, b) && dur_eq(b, c) ==> dur_lt(a, c),
        dur_eq(a, b) && dur_lt(b, c) ==> dur_lt(a, c),
        dur_eq(a, b) && dur_eq(b, c) ==> dur_eq(a, c),
{
    let (an, ad, bn, bd, cn, cd) = (a.value.0.n(), a.value.0.d(), b.value.0.n(), b.value.0.d(), c.value.0.n(), c.value.0.d());
    assert(an * bd < bn * ad && bn * cd < cn * bd ==> an * cd < cn * ad) by (nonlinear_arith)
        requires
            ad > 0,
            bd > 0,
            cd > 0,
    {
        if an * bd < bn * ad && bn * cd < cn * bd {
            assert(an * bd * cd < bn * ad * cd);
            assert(bn * cd * ad < cn * bd * ad);
            assert(an * cd * bd < cn * ad * bd);
        }
    }
    assert(an * bd < bn * ad && bn * cd == cn * bd ==> an * cd < cn * ad) by (nonlinear_arith)
        requires
            ad > 0,
            bd > 0,
            cd > 0,
    {
        if an * bd < bn * ad && bn * cd == cn * bd {
            assert(an * bd * cd < bn * ad * cd);
            assert(bn * cd * ad == cn * bd * ad);
            assert(an * cd * bd < cn * ad * bd);
        }
    }
    assert(an * bd == bn * ad && bn * cd < cn * bd ==> an * cd < cn * ad) by (nonlinear_arith)
        requires
            ad > 0,
            bd > 0,
            cd > 0,
    {
        if an * bd == bn * ad && bn * cd < cn * bd {
            assert(an * bd * cd == bn * ad * cd);
            assert(bn * cd * ad < cn * bd * ad);
            assert(an * cd * bd < cn * ad * bd);
        }
    }
    assert(an * bd == bn * ad && bn * cd == cn * bd ==> an * cd == cn * ad) by (nonlinear_arith)
        requires
            ad > 0,
            bd > 0,
            cd > 0,
    {
        if an * bd == bn * ad && bn * cd == cn * bd {
            assert(an * bd * cd == bn * ad * cd);
            assert(bn * cd * ad == cn * bd * ad);
            assert(an * cd * bd == cn * ad * bd);
        }
    }
}

proof fn lemma_dur_order_all(a: Duration, b: Duration, c: Duration)
    requires
        a.value.0.d() > 0,
        b.value.0.d() > 0,
        c.value.0.d() > 0,
    ensures
        dur_lt(a, b) && dur_lt(b, c) ==> dur_lt(a, c),
        dur_lt(a, b) && dur_eq(b, c) ==> dur_lt(a, c),
        dur_eq(a, b) && dur_lt(b, c) ==> dur_lt(a, c),
        dur_eq(a, b) && dur_eq(b, c) ==> dur_eq(a, c),
        dur_lt(a, c) && dur_lt(c, b) ==> dur_lt(a, b),
        dur_lt(a, c) && dur_eq(c, b) ==> dur_lt(a, b),
        dur_eq(a, c) && dur_lt(c, b) ==> dur_lt(a, b),
        dur_eq(a, c) && dur_eq(c, b) ==> dur_eq(a, b),
        dur_lt(b, a) && dur_lt(a, c) ==> dur_lt(b, c),
        dur_lt(b, a) && dur_eq(a, c) ==> dur_lt(b, c),
        dur_eq(b, a) && dur_lt(a, c) ==> dur_lt(b, c),
        dur_eq(b, a) && dur_eq(a, c) ==> dur_eq(b, c),
        dur_lt(b, c) && dur_lt(c, a) ==> dur_lt(b, a),
        dur_lt(b, c) && dur_eq(c, a) ==> dur_lt(b, a),
        dur_eq(b, c) && dur_lt(c, a) ==> dur_lt(b, a),
        dur_eq(b, c) && dur_eq(c, a) ==> dur_eq(b, a),
        dur_lt(c, a) && dur_lt(a, b) ==> dur_lt(c, b),
        dur_lt(c, a) && dur_eq(a, b) ==> dur_lt(c, b),
        dur_eq(c, a) && dur_lt(a, b) ==> dur_lt(c, b),
        dur_eq(c, a) && dur_eq(a, b) ==> dur_eq(c, b),
        dur_lt(c, b) && dur_lt(b, a) ==> dur_lt(c, a),
        dur_lt(c, b) && dur_eq(b, a) ==> dur_lt(c, a),
        dur_eq(c, b) && dur_lt(b, a) ==> dur_lt(c, a),
        dur_eq(c, b) && dur_eq(b, a) ==> dur_eq(c, a),
{
    lemma_dur_order(a, b, c);
    lemma_dur_order(a, c, b);
    lemma_dur_order(b, a, c);
    lemma_dur_order(b, c, a);
    lemma_dur_order(c, a, b);
    lemma_dur_order(c, b, a);
}

/// An event that goes after none of `y` and `z`, in that order, goes after neither: the order
/// of events never runs in a circle.
proof fn lemma_precedes_order(x: Event, y: Event, z: Event, by_start: bool)
    requires
        times_valid(seq![x, y, z]),
    ensures
        !precedes(y, x, by_start) && !precedes(z, y, by_start) ==> !precedes(z, x, by_start),
        precedes(x, y, by_start) ==> !precedes(y, x, by_start),
{
    assert(times_valid(seq![x, y, z]) ==> seq![x, y, z][0] == x && seq![x, y, z][1] == y && seq![x, y, z][2] == z);
    assert(x.start.value.0.d() > 0 && x.duration.value.0.d() > 0);
    assert(y.start.value.0.d() > 0 && y.duration.value.0.d() > 0);
    assert(z.start.value.0.d() > 0 && z.duration.value.0.d() > 0);
    lemma_dur_order_all(x.start, y.start, z.start);
    lemma_dur_order_all(x.duration, y.duration, z.duration);
}

proof fn lemma_insert_in_order(s: Seq<Event>, x: Event, by_start: bool)
    requires
        in_order(s, by_start),
        times_valid(s.push(x)),
    ensures
        in_order(insert_sorted(s, x, by_start), by_start),
        insert_sorted(s, x, by_start).to_multiset() == s.to_multiset().insert(x),
    decreases s.len(),
{
    broadcast use vstd::seq_lib::to_multiset_build;
    let r = insert_sorted(s, x, by_start);
    if s.len() == 0 {
        assert(s =~= Seq::<Event>::empty());
        assert(r =~= s.push(x));
    } else {
        let p = s.drop_last();
        let l = s.last();
        assert(s =~= p.push(l));
        assert forall|k: int| 0 <= k < s.push(x).len() implies #[trigger] s.push(x)[k].start.value.0.d() > 0
            && s.push(x)[k].duration.value.0.d() > 0 by {}
        if precedes(x, l, by_start) {
            assert(p.push(x) =~= s.push(x).remove(s.len() - 1));
            assert forall|k: int| 0 <= k < p.push(x).len() implies #[trigger] p.push(x)[k].start.value.0.d() > 0
                && p.push(x)[k].duration.value.0.d() > 0 by {
                if k < p.len() {
                    assert(p.push(x)[k] == s.push(x)[k]);
                } else {
                    assert(p.push(x)[k] == s.push(x)[s.len() as int]);
                }
            }
            assert forall|i: int, j: int| 0 <= i < j < p.len() implies !precedes(#[trigger] p[j], #[trigger] p[i], by_start) by {
                assert(p[i] == s[i] && p[j] == s[j]);
            }
            lemma_insert_in_order(p, x, by_start);
            let q = insert_sorted(p, x, by_start);
            assert(r == q.push(l));
            lemma_insert_sorted_from(p, x, by_start);
            assert forall|i: int, j: int| 0 <= i < j < r.len() implies !precedes(#[trigger] r[j], #[trigger] r[i], by_start) by {
                if j == r.len() - 1 {
                    assert(r[j] == l);
                    assert(r[i] == q[i]);
                    if q[i] == x {
                        assert(times_valid(seq![x, l, l]) ) by {
                            assert(s.push(x)[s.len() as int] == x);
                            assert(s.push(x)[s.len() - 1] == l);
                        }
                        lemma_precedes_order(x, l, l, by_start);
                    } else {
                        assert(p.contains(q[i]));
                        let m = choose|m: int| 0 <= m < p.len() && p[m] == q[i];
                        assert(s[m] == q[i] && s[s.len() - 1] == l);
                    }
                } else {
                    assert(r[i] == q[i] && r[j] == q[j]);
                }
            }
            assert(r.to_multiset() == q.to_multiset().insert(l));
            assert(q.to_multiset() == p.to_multiset().insert(x));
            assert(s.to_multiset() == p.to_multiset().insert(l));
            assert(r.to_multiset() =~= s.to_multiset().insert(x));
        } else {
            assert(r == s.push(x));
            assert(r.to_multiset() == s.to_multiset().insert(x));
            assert forall|i: int, j: int| 0 <= i < j < r.len() implies !precedes(#[trigger] r[j], #[trigger] r[i], by_start) by {
                if j == r.len() - 1 {
                    assert(r[j] == x);
                    assert(r[i] == s[i]);
                    if i < s.len() - 1 {
                        assert(!precedes(l, s[i], by_start));
                        assert(times_valid(seq![s[i], l, x])) by {
                            assert(s.push(x)[i] == s[i]);
                            assert(s.push(x)[s.len() - 1] == l);
                            assert(s.push(x)[s.len() as int] == x);
                        }
                        lemma_precedes_order(s[i], l, x, by_start);
                    }
                } else {
                    assert(r[i] == s[i] && r[j] == s[j]);
                }
            }
        }
    }
}

/// Sorting puts the events in order and keeps every one of them, as many times as it
/// occurs.
pub proof fn lemma_sorted_events_in_order(s: Seq<Event>, by_start: bool)
    requires
        times_valid(s),
    ensures
        in_order(sorted_events(s, by_start), by_start),
        sorted_events(s, by_start).to_multiset() == s.to_multiset(),
    decreases s.len(),
{
    broadcast use vstd::seq_lib::to_multiset_build;
    if s.len() == 0 {
        assert(sorted_events(s, by_start) == s);
    } else {
        let p = s.drop_last();
        assert forall|k: int| 0 <= k < p.len() implies #[trigger] p[k].start.value.0.d() > 0
            && p[k].duration.value.0.d() > 0 by {
            assert(p[k] == s[k]);
        }
        lemma_sorted_events_in_order(p, by_start);
        lemma_sorted_events_from(p, by_start);
        let q = sorted_events(p, by_start);
        assert forall|k: int| 0 <= k < q.push(s.last()).len() implies #[trigger] q.push(s.last())[k].start.value.0.d() > 0
            && q.push(s.last())[k].duration.value.0.d() > 0 by {
            if k < q.len() {
                assert(p.contains(q[k]));
                let m = choose|m: int| 0 <= m < p.len() && p[m] == q[k];
                assert(q.push(s.last())[k] == p[m]);
            } else {
                assert(q.push(s.last())[k] == s[s.len() - 1]);
            }
        }
        lemma_insert_in_order(q, s.last(), by_start);
        assert(s =~= p.push(s.last()));
    }
}

/// Two tracks played as one keep all the events and rests of both, each in order.
pub proof fn lemma_track_sum_in_order(a: TrackV, b: TrackV)
    requires
        times_valid(a.events + b.events),
        times_valid(a.rests + b.rests),
    ensures
        in_order(track_sum(a, b).events, false),
        in_order(track_sum(a, b).rests, false),
        track_sum(a, b).events.to_multiset() == (a.events + b.events).to_multiset(),
        track_sum(a, b).rests.to_multiset() == (a.rests + b.rests).to_multiset(),
{
    lemma_sorted_events_in_order(a.events + b.events, false);
    lemma_sorted_events_in_order(a.rests + b.rests, false);
}

/// Every end among the events, when there is one, has a positive denominator.
proof fn lemma_max_end_positive(s: Seq<Event>)
    requires
        seq_ends_fit(s),
        forall|k: int|
            0 <= k < s.len() ==> 0 <= (#[trigger] s[k]).start.value.0.n() && 0 < s[k].start.value.0.d()
                && 0 <= s[k].duration.value.0.n() && 0 < s[k].duration.value.0.d(),
    ensures
        max_end(s) matches Some(m) ==> 0 < m.value.0.d() <= u32::MAX && 0 <= m.value.0.n() <= u32::MAX,
    decreases s.len(),
{
    if s.len() > 0 {
        let p = s.drop_last();
        assert forall|k: int| 0 <= k < p.len() implies end_fits(#[trigger] p[k]) by {
            assert(p[k] == s[k]);
        }
        assert forall|k: int|
            0 <= k < p.len() implies 0 <= (#[trigger] p[k]).start.value.0.n() && 0 < p[k].start.value.0.d()
                && 0 <= p[k].duration.value.0.n() && 0 < p[k].duration.value.0.d() by {
            assert(p[k] == s[k]);
        }
        lemma_max_end_positive(p);
        let e = s.last();
        assert(e == s[s.len() - 1]);
        assert(end_fits(e));
        let (an, ad, bn, bd) = (e.start.value.0.n(), e.start.value.0.d(), e.duration.value.0.n(), e.duration.value.0.d());
        assert(an * bd + bn * ad >= 0 && ad * bd > 0) by (nonlinear_arith)
            requires
                an >= 0,
                ad > 0,
                bn >= 0,
                bd > 0,
        ;
        Ratio::lemma_lowest(an * bd + bn * ad, ad * bd);
    }
}

/// Padding a track that ends before `re` makes it end exactly as late as `re` (at the very
/// note value of `re` when that is in lowest terms, as every note value is); a track that
/// ends no earlier is left as it is.
pub proof fn lemma_pad_track_ends_at(t: TrackV, re: Duration)
    requires
        ends_fit(t),
        forall|k: int|
            0 <= k < t.events.len() ==> 0 <= (#[trigger] t.events[k]).start.value.0.n() && 0
                < t.events[k].start.value.0.d() && 0 <= t.events[k].duration.value.0.n() && 0
                < t.events[k].duration.value.0.d(),
        forall|k: int|
            0 <= k < t.rests.len() ==> 0 <= (#[trigger] t.rests[k]).start.value.0.n() && 0
                < t.rests[k].start.value.0.d() && 0 <= t.rests[k].duration.value.0.n() && 0
                < t.rests[k].duration.value.0.d(),
        0 <= re.value.0.n() <= u32::MAX,
        0 < re.value.0.d() <= u32::MAX,
        track_end(t) matches Some(te) ==> (dur_lt(te, re) ==> minus_fits(re, te) && end_fits(
            rest_at(te, dur_minus(re, te)),
        )),
    ensures
        track_end(t) matches Some(te) ==> (dur_lt(te, re) ==> (track_end(pad_track(t, re)) matches Some(
            x,
        ) && dur_eq(x, re) && (re.value.0.lowest_terms() ==> x.value == re.value))) && (!dur_lt(
            te,
            re,
        ) ==> pad_track(t, re) == t),
{
    lemma_max_end_positive(t.events);
    lemma_max_end_positive(t.rests);
    if let Some(te) = track_end(t) {
        if dur_lt(te, re) {
            let a = max_end(t.events);
            let r = max_end(t.rests);
            assert(te.value.0.d() > 0);
            assert(te.value.0.n() >= 0 && te.value.0.n() <= u32::MAX && te.value.0.d() <= u32::MAX);
            assert(end_fits(rest_at(te, dur_minus(re, te))));
            crate::music_primitives::lemma_minus_plus_exact(re, te);
            let er = dur_plus(te, dur_minus(re, te));
            let rest = rest_at(te, dur_minus(re, te));
            assert(event_end(rest) == er);
            let p = pad_track(t, re);
            assert(p.rests == t.rests.push(rest));
            assert(p.rests.drop_last() =~= t.rests);
            assert(max_end(p.rests) == max_opt(r, Some(er)));
            assert(dur_eq(er, re));
            if let Some(rv) = r {
                lemma_dur_order(rv, te, re);
                lemma_dur_order(rv, re, er);
                lemma_dur_order(te, re, er);
                assert(dur_le(rv, te));
                assert(dur_lt(rv, er) || dur_eq(rv, er));
            }
            assert(max_end(p.rests) == Some(er));
            if let Some(av) = a {
                lemma_dur_order(av, te, re);
                lemma_dur_order(av, re, er);
                lemma_dur_order(te, re, er);
                assert(dur_le(av, te));
            }
            assert(track_end(p) == Some(er));
        }
    }
}

} // verus!
