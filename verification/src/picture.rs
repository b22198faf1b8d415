use vstd::prelude::*;
use crate::ratio::Ratio;
use crate::music_primitives::{Duration, TimeSignature, beats_note_value, beats_num, beats_spec, dur_le};
use crate::composition::{
    Composition,
    CompositionV,
    Event,
    Track,
    TrackV,
    all_ends_fit,
    event_end,
    seq_ends_fit,
    span_fits,
    track_duration,
    tracks_end,
};
use crate::display::track_id_text;
use crate::text::{push_char, push_str};
use vstd::string::StrSliceExecFns;

verus! {

/// The event sounds at `time`: it has started, and has not ended before it.
pub open spec fn covers(e: Event, time: Duration) -> bool {
    dur_le(e.start, time) && dur_le(time, event_end(e))
}

/// The events of `s` that sound at `time`, in their order.
pub open spec fn events_at(s: Seq<Event>, time: Duration) -> Seq<Event>
    decreases s.len(),
{
    if s.len() == 0 {
        Seq::empty()
    } else if covers(s.last(), time) {
        events_at(s.drop_last(), time).push(s.last())
    } else {
        events_at(s.drop_last(), time)
    }
}

/// The beat of column `i` when `total` beats are cut into `columns` columns:
/// `total / columns * i`.
pub open spec fn column_beats(total: Ratio, columns: int, i: int) -> Ratio {
    let step = Ratio::lowest(total.n(), total.d() * columns);
    Ratio::lowest(step.n() * i, step.d())
}

/// The time of column `i`, counted in `ts`.
pub open spec fn column_time(total: Ratio, columns: int, i: int, ts: TimeSignature) -> Duration {
    Duration { value: beats_note_value(ts, column_beats(total, columns, i)), time_signature: ts }
}

/// The mark of a track at one time: a blank when nothing sounds, `-` for rests alone, `X` for
/// events alone, and `?` for both.
pub open spec fn column_mark(t: TrackV, time: Duration) -> char {
    if events_at(t.events, time).len() == 0 {
        if events_at(t.rests, time).len() == 0 {
            ' '
        } else {
            '-'
        }
    } else if events_at(t.rests, time).len() == 0 {
        'X'
    } else {
        '?'
    }
}

/// A track drawn in `columns` marks between brackets, the columns spread evenly over its
/// length in beats.
pub open spec fn track_picture(t: TrackV, columns: nat, ts: TimeSignature) -> Seq<char> {
    let total = beats_spec(track_duration(t, ts));
    seq!['['] + Seq::new(
        columns,
        |i: int| column_mark(t, column_time(total, columns as int, i, ts)),
    ) + seq![']']
}

/// The drawing of a track can be computed: its length, its beats, the time of every column
/// and the end of every event.
pub open spec fn picture_fits(t: TrackV, columns: nat, ts: TimeSignature) -> bool {
    let total = beats_spec(track_duration(t, ts));
    let step = Ratio::lowest(total.n(), total.d() * columns);
    &&& span_fits(t)
    &&& beats_num(track_duration(t, ts)) <= u32::MAX
    &&& columns <= u32::MAX
    &&& ts.1 != 0
    &&& total.d() * columns <= u32::MAX
    &&& forall|i: int|
        0 <= i < columns ==> step.n() * i <= u32::MAX && ts.1 * (#[trigger] column_beats(
            total,
            columns as int,
            i,
        )).d() <= u32::MAX
}

/// The events of `v` that sound at `time`.
fn events_at_exec(v: &Vec<Event>, time: Duration) -> (r: Vec<Event>)
    requires
        seq_ends_fit(v@),
    ensures
        r@ == events_at(v@, time),
{
    let mut r: Vec<Event> = Vec::new();
    let mut k: usize = 0;
    assert(v@.take(0) =~= Seq::<Event>::empty());
    while k < v.len()
        invariant
            k <= v@.len(),
            seq_ends_fit(v@),
            r@ == events_at(v@.take(k as int), time),
        decreases v@.len() - k,
    {
        assert(v@.take(k + 1).drop_last() =~= v@.take(k as int));
        assert(v@.take(k + 1).last() == v@[k as int]);
        let e = v[k];
        let end = e.get_end(time.time_signature);
        if e.start.at_most(&time) && time.at_most(&end) {
            r.push(e);
        }
        k = k + 1;
    }
    assert(v@.take(k as int) =~= v@);
    r
}

impl Track {
    /// The events that sound at `time`.
    fn get_events_at(&self, time: Duration, time_signature: TimeSignature) -> (r: Vec<Event>)
        requires
            seq_ends_fit(self.events@),
        ensures
            r@ == events_at(self.events@, time),
    {
        events_at_exec(&self.events, time)
    }

    /// The rests that sound at `time`.
    fn get_rests_at(&self, time: Duration, time_signature: TimeSignature) -> (r: Vec<Event>)
        requires
            seq_ends_fit(self.rests@),
        ensures
            r@ == events_at(self.rests@, time),
    {
        events_at_exec(&self.rests, time)
    }

    /// Draw the track in `columns` marks between brackets, spread evenly over its length
    /// in beats: a blank where nothing sounds, `-` for rests, `X` for events, `?` for both.
    pub fn visualize(&self, columns: usize, time_signature: TimeSignature, start: Duration, end: Duration) -> (s: String)
        requires
            picture_fits(self@, columns as nat, time_signature),
        ensures
            s@ == track_picture(self@, columns as nat, time_signature),
    {
        let ghost total = beats_spec(track_duration(self@, time_signature));
        let ghost marks = Seq::new(
            columns as nat,
            |i: int| column_mark(self@, column_time(total, columns as int, i, time_signature)),
        );
        let mut s = String::new();
        push_char(&mut s, '[');
        let total_beats = self.get_duration(time_signature).get_beats();
        assert(total_beats == total);
        let mut i: usize = 0;
        while i < columns
            invariant
                i <= columns,
                picture_fits(self@, columns as nat, time_signature),
                total_beats == total,
                total == beats_spec(track_duration(self@, time_signature)),
                marks == Seq::new(
                    columns as nat,
                    |i: int| column_mark(self@, column_time(total, columns as int, i, time_signature)),
                ),
                s@ == seq!['['] + marks.take(i as int),
            decreases columns - i,
        {
            assert(0 <= i < columns);
            let ghost cb = column_beats(total, columns as int, i as int);
            assert(time_signature.1 * cb.d() <= u32::MAX);
            let step = total_beats.div_integer(columns as u32);
            let time = step.times_integer(i as u32);
            assert(time == cb);
            let mt = Duration::from_beats_with_ts(time, time_signature);
            assert(mt == column_time(total, columns as int, i as int, time_signature));
            let evts = self.get_events_at(mt, time_signature);
            let rest_evts = self.get_rests_at(mt, time_signature);
            let c = if evts.len() == 0 {
                if rest_evts.len() == 0 {
                    ' '
                } else {
                    '-'
                }
            } else {
                if rest_evts.len() == 0 {
                    'X'
                } else {
                    '?'
                }
            };
            assert(c == marks[i as int]);
            push_char(&mut s, c);
            assert(marks.take(i + 1) =~= marks.take(i as int).push(marks[i as int]));
            i = i + 1;
        }
        assert(marks.take(i as int) =~= marks);
        push_char(&mut s, ']');
        s
    }
}


/// `s` right-aligned in twelve places: blanks before it when it is shorter.
pub open spec fn padded12(s: Seq<char>) -> Seq<char> {
    if s.len() < 12 {
        Seq::new((12 - s.len()) as nat, |i: int| ' ') + s
    } else {
        s
    }
}

/// One line of the drawing of a composition: the name of the track right-aligned in twelve
/// places, a blank, the drawing of the track and a line break.
pub open spec fn picture_line(t: TrackV, columns: nat, ts: TimeSignature) -> Seq<char> {
    padded12(track_id_text(t.identifier)) + seq![' '] + track_picture(t, columns, ts) + seq!['\n']
}

/// The lines of the tracks, one after the other.
pub open spec fn picture_lines(s: Seq<TrackV>, columns: nat, ts: TimeSignature) -> Seq<char>
    decreases s.len(),
{
    if s.len() == 0 {
        Seq::empty()
    } else {
        picture_lines(s.drop_last(), columns, ts) + picture_line(s.last(), columns, ts)
    }
}

/// The drawing of a composition: a line per track, or a note that there is no music when
/// no track has an end.
pub open spec fn composition_picture(c: CompositionV, columns: nat) -> Seq<char> {
    match tracks_end(c.tracks) {
        None => "[No music in this composition]"@,
        Some(_) => picture_lines(c.tracks, columns, c.time_signature),
    }
}

/// Every track of the composition can be drawn.
pub open spec fn composition_picture_fits(c: CompositionV, columns: nat) -> bool {
    &&& all_ends_fit(c.tracks)
    &&& forall|k: int| 0 <= k < c.tracks.len() ==> picture_fits(#[trigger] c.tracks[k], columns, c.time_signature)
}

fn push_padded12(s: &mut String, t: &String)
    ensures
        final(s)@ == old(s)@ + padded12(t@),
{
    let n = t.as_str().unicode_len();
    let ghost s0 = s@;
    if n < 12 {
        let mut k: usize = n;
        while k < 12
            invariant
                n <= k <= 12,
                n == t@.len(),
                s@ == s0 + Seq::new((k - n) as nat, |i: int| ' '),
            decreases 12 - k,
        {
            push_char(s, ' ');
            k = k + 1;
            assert(s@ =~= s0 + Seq::new((k - n) as nat, |i: int| ' '));
        }
    }
    push_str(s, t.as_str());
    assert(s@ =~= s0 + padded12(t@));
}

impl Composition {
    /// Draw the composition: for each track its name right-aligned in twelve places and its
    /// drawing in `columns` marks, one track a line.
    pub fn visualize(&self, columns: usize) -> (s: String)
        requires
            composition_picture_fits(self@, columns as nat),
        ensures
            s@ == composition_picture(self@, columns as nat),
    {
        let mut s = String::new();
        let start = Duration::zero(self.time_signature);
        let end = match self.get_end() {
            Some(end) => end,
            None => {
                let mut empty = String::new();
                push_str(&mut empty, "[No music in this composition]");
                return empty;
            },
        };
        let mut i: usize = 0;
        while i < self.tracks.len()
            invariant
                i <= self.tracks@.len(),
                composition_picture_fits(self@, columns as nat),
                s@ == picture_lines(self@.tracks.take(i as int), columns as nat, self.time_signature),
            decreases self.tracks@.len() - i,
        {
            assert(self@.tracks.take(i + 1).drop_last() =~= self@.tracks.take(i as int));
            assert(self@.tracks.take(i + 1).last() == self@.tracks[i as int]);
            assert(picture_fits(self@.tracks[i as int], columns as nat, self.time_signature));
            let track = &self.tracks[i];
            let name = track.identifier.to_string();
            push_padded12(&mut s, &name);
            push_char(&mut s, ' ');
            let picture = track.visualize(columns, self.time_signature, start, end);
            push_str(&mut s, picture.as_str());
            push_char(&mut s, '\n');
            i = i + 1;
        }
        assert(self@.tracks.take(i as int) =~= self@.tracks);
        s
    }
}

} // verus!
