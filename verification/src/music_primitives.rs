use vstd::prelude::*;
use vstd::string::StrSliceExecFns;
use vstd::string::StringExecFns;
use crate::ratio::{Ratio, diff_fits, same_value, sum_fits, lemma_same_value_trans, lemma_same_value_floor};

verus! {

/// Includes 0.
pub type MusicNat = u32;

pub type Measures = MusicNat;

/// These are the unique pitch classes: [0, 12)
/// See PitchClass for mapping to names.
pub type PitchClassNum = u8;

/// Anything beyond this is crazy. [-128, 128)
pub type Octave = i8;

/// A meter: beats per measure, and the note value (as a power-of-two denominator) of one beat.
#[derive(Debug, Copy, Clone, PartialEq, Eq, Hash, PartialOrd, Ord, Structural)]
pub struct TimeSignature(pub MusicNat, pub MusicNat);

impl TimeSignature {
    pub fn common() -> (ts: TimeSignature)
        ensures
            ts == TimeSignature(4, 4),
    {
        TimeSignature(4, 4)
    }

    pub fn waltz() -> (ts: TimeSignature)
        ensures
            ts == TimeSignature(3, 4),
    {
        TimeSignature(3, 4)
    }
}


/// A beat count.
pub type Beats = Ratio;

/// The written length of a note as a fraction of a whole note: 1/8 is an eighth note. It is
/// never negative.
#[derive(Debug, Copy, Clone, PartialEq, Eq, Hash, Structural)]
pub struct NoteValue(pub Ratio);

pub type RestValue = NoteValue;

/// A note value together with the time signature it is counted in. It is also used for offsets
/// in time, and is never negative.
#[derive(Debug, Copy, Clone, PartialEq, Eq, Hash, Structural)]
pub struct Duration {
    pub value: NoteValue,
    pub time_signature: TimeSignature,
}

/// The value of a note value is the fraction `x / y`.
pub open spec fn nv_is(v: NoteValue, x: int, y: int) -> bool {
    v.0.d() > 0 && same_value(v.0.n(), v.0.d(), x, y)
}

/// The number of beats that a duration spans, as the fraction `beats_num(d) / d.value.0.d()`.
pub open spec fn beats_num(d: Duration) -> int {
    d.value.0.n() * d.time_signature.1
}

/// The number of whole measures that a duration spans.
pub open spec fn whole_measures_spec(d: Duration) -> int {
    beats_num(d) / (d.value.0.d() * d.time_signature.0)
}

/// The getters of a duration stay within `u32`.
pub open spec fn duration_fits(d: Duration) -> bool {
    &&& d.time_signature.0 != 0
    &&& beats_num(d) <= u32::MAX
    &&& d.value.0.d() * d.time_signature.0 <= u32::MAX
}


/// The beats of a duration: its note value times the lower number of the time signature.
pub open spec fn beats_spec(d: Duration) -> Ratio {
    Ratio::lowest(d.value.0.n() * d.time_signature.1, d.value.0.d())
}

/// The exact number of measures of a duration.
pub open spec fn measures_spec(d: Duration) -> Ratio {
    Ratio::lowest(beats_spec(d).n(), beats_spec(d).d() * d.time_signature.0)
}

/// The beats of a duration left over after its whole measures.
pub open spec fn rem_beats_spec(d: Duration) -> Ratio {
    Ratio::lowest(beats_spec(d).n() % (beats_spec(d).d() * d.time_signature.0), beats_spec(d).d())
}

/// The note value that `beats` beats make up in `ts`.
pub open spec fn beats_note_value(ts: TimeSignature, beats: Ratio) -> NoteValue {
    NoteValue(Ratio::lowest(beats.n(), ts.1 * beats.d()))
}

/// The beats of `measures` whole measures and `beats` more.
pub open spec fn total_beats_spec(measures: int, beats: Ratio, ts: TimeSignature) -> Ratio {
    Ratio::lowest(measures * ts.0 * beats.d() + beats.n(), beats.d())
}

/// The sum of two note values.
pub open spec fn nv_plus(a: NoteValue, b: NoteValue) -> NoteValue {
    NoteValue(Ratio::lowest(a.0.n() * b.0.d() + b.0.n() * a.0.d(), a.0.d() * b.0.d()))
}

/// The difference of two note values.
pub open spec fn nv_minus(a: NoteValue, b: NoteValue) -> NoteValue {
    NoteValue(Ratio::lowest(a.0.n() * b.0.d() - b.0.n() * a.0.d(), a.0.d() * b.0.d()))
}

/// A note value scaled by a ratio.
pub open spec fn nv_times(a: NoteValue, r: Ratio) -> NoteValue {
    NoteValue(Ratio::lowest(a.0.n() * r.n(), a.0.d() * r.d()))
}

/// A note value scaled by an integer.
pub open spec fn nv_times_integer(a: NoteValue, t: int) -> NoteValue {
    NoteValue(Ratio::lowest(a.0.n() * t, a.0.d()))
}

/// The sum of two durations, counted in the time signature of the first.
pub open spec fn dur_plus(a: Duration, b: Duration) -> Duration {
    Duration { value: nv_plus(a.value, b.value), time_signature: a.time_signature }
}

/// The difference of two durations, counted in the time signature of the first.
pub open spec fn dur_minus(a: Duration, b: Duration) -> Duration {
    Duration { value: nv_minus(a.value, b.value), time_signature: a.time_signature }
}

/// `a` is shorter than `b`.
pub open spec fn dur_lt(a: Duration, b: Duration) -> bool {
    a.value.0.n() * b.value.0.d() < b.value.0.n() * a.value.0.d()
}

/// `a` is at most as long as `b`.
pub open spec fn dur_le(a: Duration, b: Duration) -> bool {
    a.value.0.n() * b.value.0.d() <= b.value.0.n() * a.value.0.d()
}

impl TimeSignature {
    /// The note value of one beat: one over the lower number.
    pub fn beat_note_value(&self) -> (v: NoteValue)
        requires
            self.1 != 0,
        ensures
            v == NoteValue(Ratio::lowest(1, self.1 as int)),
            nv_is(v, 1, self.1 as int),
            v.0.n() <= 1,
            v.0.d() <= self.1,
    {
        NoteValue(Ratio::new(1, self.1))
    }

    /// The note value that `beats` beats make up.
    pub fn as_note_value(&self, beats: Beats) -> (v: NoteValue)
        requires
            self.1 != 0,
            self.1 * beats.d() <= u32::MAX,
        ensures
            v == beats_note_value(*self, beats),
            nv_is(v, beats.n(), self.1 * beats.d()),
            v.0.n() <= beats.n(),
            v.0.d() <= self.1 * beats.d(),
    {
        let b = self.beat_note_value();
        proof {
            Ratio::lemma_lowest_unit(self.1 as int);
            assert(1 * beats.n() == beats.n());
            use_type_invariant(&b.0);
            b.0.lemma_lowest_terms();
            use_type_invariant(&beats);
            beats.lemma_lowest_terms();
            let (bn, bd) = (b.0.n(), b.0.d());
            assert(bn * beats.n() <= beats.n()) by (nonlinear_arith)
                requires
                    0 <= bn <= 1,
                    beats.n() >= 0,
            ;
            assert(bd * beats.d() <= self.1 * beats.d()) by (nonlinear_arith)
                requires
                    bd <= self.1,
                    beats.d() > 0,
            ;
        }
        let r = b.0.times(beats);
        proof {
            let (bn, bd) = (b.0.n(), b.0.d());
            assert(same_value(bn * beats.n(), bd * beats.d(), beats.n(), self.1 * beats.d()))
                by (nonlinear_arith)
                requires
                    bn * self.1 == 1 * bd,
            ;
            assert(bd * beats.d() > 0) by (nonlinear_arith)
                requires
                    bd > 0,
                    beats.d() > 0,
            ;
            assert(self.1 * beats.d() > 0) by (nonlinear_arith)
                requires
                    self.1 > 0,
                    beats.d() > 0,
            ;
            lemma_same_value_trans(
                r.n(),
                r.d(),
                bn * beats.n(),
                bd * beats.d(),
                beats.n(),
                self.1 * beats.d(),
            );
        }
        NoteValue(r)
    }
}

impl NoteValue {
    /// The note value `numerator / denominator`; the denominator must not be 0.
    pub fn new(numerator: MusicNat, denominator: MusicNat) -> (v: NoteValue)
        requires
            denominator != 0,
        ensures
            v == NoteValue(Ratio::lowest(numerator as int, denominator as int)),
            nv_is(v, numerator as int, denominator as int),
            v.0.n() <= numerator,
            v.0.d() <= denominator,
    {
        NoteValue(Ratio::new(numerator, denominator))
    }

    /// This note value counted in `time_signature`.
    pub fn with(&self, time_signature: TimeSignature) -> (d: Duration)
        ensures
            d.value == *self,
            d.time_signature == time_signature,
    {
        Duration { value: *self, time_signature: time_signature }
    }

    /// The sum of two note values.
    pub fn plus(self, rhs: NoteValue) -> (v: NoteValue)
        requires
            self.0.n() * rhs.0.d() + rhs.0.n() * self.0.d() <= u32::MAX,
            self.0.d() * rhs.0.d() <= u32::MAX,
        ensures
            v == nv_plus(self, rhs),
            nv_is(v, self.0.n() * rhs.0.d() + rhs.0.n() * self.0.d(), self.0.d() * rhs.0.d()),
            v.0.n() <= self.0.n() * rhs.0.d() + rhs.0.n() * self.0.d(),
            v.0.d() <= self.0.d() * rhs.0.d(),
    {
        NoteValue(self.0.plus(rhs.0))
    }

    /// The difference of two note values; the larger cannot be taken from the smaller.
    pub fn minus(self, rhs: NoteValue) -> (v: NoteValue)
        requires
            rhs.0.n() * self.0.d() <= self.0.n() * rhs.0.d(),
            self.0.n() * rhs.0.d() <= u32::MAX,
            self.0.d() * rhs.0.d() <= u32::MAX,
        ensures
            v == nv_minus(self, rhs),
            nv_is(v, self.0.n() * rhs.0.d() - rhs.0.n() * self.0.d(), self.0.d() * rhs.0.d()),
            v.0.n() <= self.0.n() * rhs.0.d() - rhs.0.n() * self.0.d(),
            v.0.d() <= self.0.d() * rhs.0.d(),
    {
        NoteValue(self.0.minus(rhs.0))
    }

    /// The note value scaled by a ratio.
    pub fn times(self, rhs: Ratio) -> (v: NoteValue)
        requires
            self.0.n() * rhs.n() <= u32::MAX,
            self.0.d() * rhs.d() <= u32::MAX,
        ensures
            v == nv_times(self, rhs),
            nv_is(v, self.0.n() * rhs.n(), self.0.d() * rhs.d()),
            v.0.n() <= self.0.n() * rhs.n(),
            v.0.d() <= self.0.d() * rhs.d(),
    {
        NoteValue(self.0.times(rhs))
    }

    /// The note value scaled by an integer.
    pub fn times_integer(self, rhs: MusicNat) -> (v: NoteValue)
        requires
            self.0.n() * rhs <= u32::MAX,
        ensures
            v == nv_times_integer(self, rhs as int),
            nv_is(v, self.0.n() * rhs, self.0.d()),
            v.0.n() <= self.0.n() * rhs,
            v.0.d() <= self.0.d(),
    {
        NoteValue(self.0.times_integer(rhs))
    }
}

impl Duration {
    /// No time at all, counted in `time_signature`.
    pub fn zero(time_signature: TimeSignature) -> (d: Duration)
        ensures
            d.value == NoteValue(Ratio::lowest(0, 1)),
            d.value.0.n() == 0,
            d.value.0.d() == 1,
            d.time_signature == time_signature,
    {
        let v = NoteValue::new(0, 1);
        proof {
            Ratio::lemma_lowest_integer(0);
        }
        Duration { value: v, time_signature: time_signature }
    }

    pub fn is_zero(&self) -> (b: bool)
        ensures
            b == (self.value.0.n() == 0),
    {
        self.value.0.is_zero()
    }

    /// The duration of `beats` beats: one beat in 3/4 is a quarter note, three beats in 3/8
    /// are three eighth notes.
    pub fn from_beats_with_ts(beats: Beats, time_signature: TimeSignature) -> (d: Duration)
        requires
            time_signature.1 != 0,
            time_signature.1 * beats.d() <= u32::MAX,
        ensures
            d.value == beats_note_value(time_signature, beats),
            nv_is(d.value, beats.n(), time_signature.1 * beats.d()),
            d.value.0.n() <= beats.n(),
            d.value.0.d() <= time_signature.1 * beats.d(),
            d.time_signature == time_signature,
    {
        Duration { value: time_signature.as_note_value(beats), time_signature }
    }

    /// The duration of `measures` whole measures and `beats` more beats.
    pub fn measures_and_beats_with_ts(
        measures: Measures,
        beats: Beats,
        time_signature: TimeSignature,
    ) -> (d: Duration)
        requires
            time_signature.1 != 0,
            measures * time_signature.0 * beats.d() + beats.n() <= u32::MAX,
            time_signature.1 * beats.d() <= u32::MAX,
        ensures
            d.value == beats_note_value(
                time_signature,
                total_beats_spec(measures as int, beats, time_signature),
            ),
            nv_is(
                d.value,
                measures * time_signature.0 * beats.d() + beats.n(),
                time_signature.1 * beats.d(),
            ),
            d.value.0.d() <= time_signature.1 * beats.d(),
            d.time_signature == time_signature,
    {
        let TimeSignature(num, _) = time_signature;
        proof {
            use_type_invariant(&beats);
            beats.lemma_lowest_terms();
            assert(measures * num <= measures * num * beats.d()) by (nonlinear_arith)
                requires
                    beats.d() >= 1,
                    measures >= 0,
                    num >= 0,
            ;
        }
        let m = Ratio::from_integer(measures);
        let whole = m.times_integer(num);
        proof {
            assert(whole.d() == 1);
            assert(whole.n() * 1 == (m.n() * num) * 1);
            assert(whole.n() == measures * num);
        }
        let total_beats = whole.plus(beats);
        proof {
            assert(time_signature.1 * total_beats.d() <= time_signature.1 * beats.d())
                by (nonlinear_arith)
                requires
                    total_beats.d() <= 1 * beats.d(),
                    time_signature.1 >= 0,
            ;
        }
        let value = time_signature.as_note_value(total_beats);
        proof {
            let x = measures * num * beats.d() + beats.n();
            assert(x == whole.n() * beats.d() + beats.n() * whole.d());
            assert(total_beats.d() > 0);
            assert(same_value(
                total_beats.n(),
                time_signature.1 * total_beats.d(),
                x,
                time_signature.1 * beats.d(),
            )) by (nonlinear_arith)
                requires
                    total_beats.n() * (1 * beats.d()) == x * total_beats.d(),
            ;
            assert(time_signature.1 * total_beats.d() > 0) by (nonlinear_arith)
                requires
                    time_signature.1 > 0,
                    total_beats.d() > 0,
            ;
            assert(time_signature.1 * beats.d() > 0) by (nonlinear_arith)
                requires
                    time_signature.1 > 0,
                    beats.d() > 0,
            ;
            lemma_same_value_trans(
                value.0.n(),
                value.0.d(),
                total_beats.n(),
                time_signature.1 * total_beats.d(),
                x,
                time_signature.1 * beats.d(),
            );
        }
        Duration { value, time_signature }
    }

    /// The duration of `measures` whole measures.
    pub fn measures_with_ts(measures: Measures, time_signature: TimeSignature) -> (d: Duration)
        requires
            time_signature.1 != 0,
            measures * time_signature.0 <= u32::MAX,
        ensures
            d.value == beats_note_value(
                time_signature,
                total_beats_spec(measures as int, Ratio::lowest(0, 1), time_signature),
            ),
            nv_is(d.value, measures * time_signature.0, time_signature.1 as int),
            d.value.0.d() <= time_signature.1,
            d.time_signature == time_signature,
    {
        let zero = Ratio::from_integer(0);
        Self::measures_and_beats_with_ts(measures, zero, time_signature)
    }

    /// The total number of beats: the note value times the lower number of the time signature.
    pub fn get_beats(&self) -> (b: Beats)
        requires
            beats_num(*self) <= u32::MAX,
        ensures
            b == beats_spec(*self),
            b.d() > 0,
            same_value(b.n(), b.d(), beats_num(*self), self.value.0.d()),
            b.n() <= beats_num(*self),
            b.d() <= self.value.0.d(),
    {
        let TimeSignature(_, denom) = self.time_signature;
        self.value.0.times_integer(denom)
    }

    /// The exact number of measures: the beats over the beats per measure.
    pub fn get_measures(&self) -> (m: Ratio)
        requires
            duration_fits(*self),
        ensures
            m == measures_spec(*self),
            m.d() > 0,
            same_value(m.n(), m.d(), beats_num(*self), self.value.0.d() * self.time_signature.0),
    {
        let TimeSignature(num, _) = self.time_signature;
        let beats = self.get_beats();
        proof {
            assert(beats.d() * num <= self.value.0.d() * num) by (nonlinear_arith)
                requires
                    beats.d() <= self.value.0.d(),
                    num >= 0,
            ;
        }
        let m = beats.div_integer(num);
        proof {
            use_type_invariant(&self.value.0);
            self.value.0.lemma_lowest_terms();
            let (bn, bd, vd) = (beats.n(), beats.d(), self.value.0.d());
            let x = beats_num(*self);
            assert(same_value(bn, bd * num, x, vd * num)) by (nonlinear_arith)
                requires
                    bn * vd == x * bd,
            ;
            assert(bd * num > 0 && vd * num > 0) by (nonlinear_arith)
                requires
                    bd > 0,
                    vd > 0,
                    num > 0,
            ;
            lemma_same_value_trans(m.n(), m.d(), bn, bd * num, x, vd * num);
        }
        m
    }

    /// The number of whole measures.
    pub fn get_whole_measures(&self) -> (m: MusicNat)
        requires
            duration_fits(*self),
        ensures
            m == whole_measures_spec(*self),
    {
        let measures = self.get_measures();
        proof {
            use_type_invariant(&self.value.0);
            self.value.0.lemma_lowest_terms();
            use_type_invariant(&measures);
            measures.lemma_lowest_terms();
            assert(self.value.0.d() * self.time_signature.0 > 0) by (nonlinear_arith)
                requires
                    self.value.0.d() > 0,
                    self.time_signature.0 > 0,
            ;
            assert(beats_num(*self) >= 0) by (nonlinear_arith)
                requires
                    self.value.0.n() >= 0,
                    self.time_signature.1 >= 0,
            ;
            lemma_same_value_floor(
                measures.n(),
                measures.d(),
                beats_num(*self),
                self.value.0.d() * self.time_signature.0,
            );
        }
        measures.to_integer()
    }

    /// The beats left over after the whole measures.
    pub fn get_rem_beats(&self) -> (b: Beats)
        requires
            duration_fits(*self),
        ensures
            b == rem_beats_spec(*self),
            b.d() > 0,
            same_value(
                b.n(),
                b.d(),
                beats_num(*self) - self.time_signature.0 * whole_measures_spec(*self)
                    * self.value.0.d(),
                self.value.0.d(),
            ),
    {
        let TimeSignature(num, _) = self.time_signature;
        let beats = self.get_beats();
        proof {
            assert(beats.d() * num <= self.value.0.d() * num) by (nonlinear_arith)
                requires
                    beats.d() <= self.value.0.d(),
                    num >= 0,
            ;
        }
        let r = beats.rem_integer(num);
        proof {
            use_type_invariant(&self.value.0);
            self.value.0.lemma_lowest_terms();
            use_type_invariant(&beats);
            beats.lemma_lowest_terms();
            let (bn, bd, vd) = (beats.n(), beats.d(), self.value.0.d());
            let x = beats_num(*self);
            let t = num as int;
            assert(bd * t > 0 && vd * t > 0) by (nonlinear_arith)
                requires
                    bd > 0,
                    vd > 0,
                    t > 0,
            ;
            assert(same_value(bn, bd * t, x, vd * t)) by (nonlinear_arith)
                requires
                    bn * vd == x * bd,
            ;
            assert(self.value.0.n() * self.time_signature.1 >= 0) by (nonlinear_arith)
                requires
                    self.value.0.n() >= 0,
                    self.time_signature.1 >= 0,
            ;
            lemma_same_value_floor(bn, bd * t, x, vd * t);
            let k = bn / (bd * t);
            assert(k == whole_measures_spec(*self));
            vstd::arithmetic::div_mod::lemma_fundamental_div_mod(bn, bd * t);
            let rem = bn % (bd * t);
            assert(rem == bn - (bd * t) * k);
            assert(rem * vd == bn * vd - (bd * t) * k * vd) by (nonlinear_arith)
                requires
                    rem == bn - (bd * t) * k,
            ;
            assert((x - t * k * vd) * bd == x * bd - (bd * t) * k * vd) by (nonlinear_arith);
            assert(same_value(rem, bd, x - t * k * vd, vd));
            lemma_same_value_trans(r.n(), r.d(), rem, bd, x - t * k * vd, vd);
        }
        r
    }

    /// This duration extended by a note value.
    pub fn plus_note_value(self, rhs: NoteValue) -> (d: Duration)
        requires
            self.value.0.n() * rhs.0.d() + rhs.0.n() * self.value.0.d() <= u32::MAX,
            self.value.0.d() * rhs.0.d() <= u32::MAX,
        ensures
            d.value == nv_plus(self.value, rhs),
            nv_is(
                d.value,
                self.value.0.n() * rhs.0.d() + rhs.0.n() * self.value.0.d(),
                self.value.0.d() * rhs.0.d(),
            ),
            d.value.0.d() <= self.value.0.d() * rhs.0.d(),
            d.time_signature == self.time_signature,
    {
        Duration { value: self.value.plus(rhs), time_signature: self.time_signature }
    }

    /// The sum of two durations counted in the same time signature.
    pub fn plus(self, rhs: Duration) -> (d: Duration)
        requires
            self.time_signature == rhs.time_signature,
            self.value.0.n() * rhs.value.0.d() + rhs.value.0.n() * self.value.0.d() <= u32::MAX,
            self.value.0.d() * rhs.value.0.d() <= u32::MAX,
        ensures
            d == dur_plus(self, rhs),
            nv_is(
                d.value,
                self.value.0.n() * rhs.value.0.d() + rhs.value.0.n() * self.value.0.d(),
                self.value.0.d() * rhs.value.0.d(),
            ),
            d.value.0.d() <= self.value.0.d() * rhs.value.0.d(),
            d.time_signature == self.time_signature,
    {
        Duration { value: self.value.plus(rhs.value), time_signature: self.time_signature }
    }

    /// Extend this duration by another one in place; the time signature stays.
    pub fn add_assign(&mut self, rhs: Duration)
        requires
            old(self).value.0.n() * rhs.value.0.d() + rhs.value.0.n() * old(self).value.0.d()
                <= u32::MAX,
            old(self).value.0.d() * rhs.value.0.d() <= u32::MAX,
        ensures
            final(self).value == nv_plus(old(self).value, rhs.value),
            nv_is(
                final(self).value,
                old(self).value.0.n() * rhs.value.0.d() + rhs.value.0.n() * old(self).value.0.d(),
                old(self).value.0.d() * rhs.value.0.d(),
            ),
            final(self).value.0.d() <= old(self).value.0.d() * rhs.value.0.d(),
            final(self).time_signature == old(self).time_signature,
    {
        self.value = self.value.plus(rhs.value);
    }

    /// The difference of two durations counted in the same time signature; the longer cannot
    /// be taken from the shorter.
    pub fn minus(self, rhs: Duration) -> (d: Duration)
        requires
            self.time_signature == rhs.time_signature,
            rhs.value.0.n() * self.value.0.d() <= self.value.0.n() * rhs.value.0.d(),
            self.value.0.n() * rhs.value.0.d() <= u32::MAX,
            self.value.0.d() * rhs.value.0.d() <= u32::MAX,
        ensures
            d == dur_minus(self, rhs),
            nv_is(
                d.value,
                self.value.0.n() * rhs.value.0.d() - rhs.value.0.n() * self.value.0.d(),
                self.value.0.d() * rhs.value.0.d(),
            ),
            d.value.0.d() <= self.value.0.d() * rhs.value.0.d(),
            d.time_signature == self.time_signature,
    {
        Duration { value: self.value.minus(rhs.value), time_signature: self.time_signature }
    }

    /// The duration scaled by a ratio.
    pub fn times(self, rhs: Ratio) -> (d: Duration)
        requires
            self.value.0.n() * rhs.n() <= u32::MAX,
            self.value.0.d() * rhs.d() <= u32::MAX,
        ensures
            d.value == nv_times(self.value, rhs),
            nv_is(d.value, self.value.0.n() * rhs.n(), self.value.0.d() * rhs.d()),
            d.value.0.d() <= self.value.0.d() * rhs.d(),
            d.time_signature == self.time_signature,
    {
        Duration { value: self.value.times(rhs), time_signature: self.time_signature }
    }

    /// The duration scaled by an integer.
    pub fn times_integer(self, rhs: MusicNat) -> (d: Duration)
        requires
            self.value.0.n() * rhs <= u32::MAX,
        ensures
            d.value == nv_times_integer(self.value, rhs as int),
            nv_is(d.value, self.value.0.n() * rhs, self.value.0.d() as int),
            d.value.0.d() <= self.value.0.d(),
            d.time_signature == self.time_signature,
    {
        Duration { value: self.value.times_integer(rhs), time_signature: self.time_signature }
    }

    /// `self` is shorter than `other`; durations are ordered by their note values alone.
    pub fn less_than(&self, other: &Duration) -> (b: bool)
        ensures
            b == dur_lt(*self, *other),
    {
        self.value.0.less_than(&other.value.0)
    }

    /// `self` is at most as long as `other`.
    pub fn at_most(&self, other: &Duration) -> (b: bool)
        ensures
            b == dur_le(*self, *other),
    {
        self.value.0.at_most(&other.value.0)
    }
}

/// The 12-tone equal temperament pitch classes, with enharmonic spellings.
#[derive(Debug, Copy, Clone, PartialEq, Eq, Structural)]
pub enum PitchClass {
    A,
    ASharp,
    Bb,
    B,
    C,
    CSharp,
    Db,
    D,
    DSharp,
    Eb,
    E,
    F,
    FSharp,
    Gb,
    G,
    GSharp,
    Ab,
}

/// The number in [0, 12) of a pitch class, with C as 0.
pub open spec fn pitch_class_num(pc: PitchClass) -> int {
    match pc {
        PitchClass::C => 0,
        PitchClass::CSharp | PitchClass::Db => 1,
        PitchClass::D => 2,
        PitchClass::DSharp | PitchClass::Eb => 3,
        PitchClass::E => 4,
        PitchClass::F => 5,
        PitchClass::FSharp | PitchClass::Gb => 6,
        PitchClass::G => 7,
        PitchClass::GSharp | PitchClass::Ab => 8,
        PitchClass::A => 9,
        PitchClass::ASharp | PitchClass::Bb => 10,
        PitchClass::B => 11,
    }
}

/// The canonical spelling chosen for each pitch class number.
pub open spec fn pitch_class_of_num(n: int) -> PitchClass {
    if n == 0 {
        PitchClass::C
    } else if n == 1 {
        PitchClass::CSharp
    } else if n == 2 {
        PitchClass::D
    } else if n == 3 {
        PitchClass::Eb
    } else if n == 4 {
        PitchClass::E
    } else if n == 5 {
        PitchClass::F
    } else if n == 6 {
        PitchClass::FSharp
    } else if n == 7 {
        PitchClass::G
    } else if n == 8 {
        PitchClass::Ab
    } else if n == 9 {
        PitchClass::A
    } else if n == 10 {
        PitchClass::Bb
    } else {
        PitchClass::B
    }
}

fn pitch_class_from_num(n: PitchClassNum) -> (pc: PitchClass)
    requires
        n < 12,
    ensures
        pc == pitch_class_of_num(n as int),
        pitch_class_num(pc) == n,
{
    match n {
        0 => PitchClass::C,
        1 => PitchClass::CSharp,
        2 => PitchClass::D,
        3 => PitchClass::Eb,
        4 => PitchClass::E,
        5 => PitchClass::F,
        6 => PitchClass::FSharp,
        7 => PitchClass::G,
        8 => PitchClass::Ab,
        9 => PitchClass::A,
        10 => PitchClass::Bb,
        _ => PitchClass::B,
    }
}

impl PitchClass {
    /// Convert to a number in [0, 12)
    pub fn to_note_num(&self) -> (n: PitchClassNum)
        ensures
            n == pitch_class_num(*self),
            n < 12,
    {
        match self {
            PitchClass::C => 0,
            PitchClass::CSharp | PitchClass::Db => 1,
            PitchClass::D => 2,
            PitchClass::DSharp | PitchClass::Eb => 3,
            PitchClass::E => 4,
            PitchClass::F => 5,
            PitchClass::FSharp | PitchClass::Gb => 6,
            PitchClass::G => 7,
            PitchClass::GSharp | PitchClass::Ab => 8,
            PitchClass::A => 9,
            PitchClass::ASharp | PitchClass::Bb => 10,
            PitchClass::B => 11,
        }
    }

    /// The pitch class one semitone up.
    pub fn sharp(&self) -> (pc: PitchClass)
        ensures
            pc == pitch_class_of_num((pitch_class_num(*self) + 1) % 12),
            pitch_class_num(pc) == (pitch_class_num(*self) + 1) % 12,
    {
        pitch_class_from_num((self.to_note_num() + 1) % 12)
    }

    /// The pitch class one semitone down.
    pub fn flat(&self) -> (pc: PitchClass)
        ensures
            pc == pitch_class_of_num((pitch_class_num(*self) + 11) % 12),
            pitch_class_num(pc) == (pitch_class_num(*self) + 11) % 12,
    {
        pitch_class_from_num((self.to_note_num() + 11) % 12)
    }

    pub fn at(self, octave: Octave) -> (p: Pitch)
        ensures
            p.spec_octave() == octave,
            p.spec_note_num() == pitch_class_num(self),
            p == Pitch::spec_new(octave as int, pitch_class_num(self)),
    {
        Pitch::new(octave, self)
    }
}

/// Anything that names a pitch class: a `PitchClass`, or an integer taken modulo 12.
pub trait IntoPitchClassNum: Sized {
    /// The pitch class number that `self` stands for.
    spec fn pitch_class_value(&self) -> int;

    fn into(self) -> (n: PitchClassNum)
        ensures
            n == self.pitch_class_value(),
            n < 12,
    ;
}

impl IntoPitchClassNum for PitchClass {
    open spec fn pitch_class_value(&self) -> int {
        pitch_class_num(*self)
    }

    fn into(self) -> (n: PitchClassNum) {
        self.to_note_num()
    }
}

impl IntoPitchClassNum for u8 {
    open spec fn pitch_class_value(&self) -> int {
        (*self as int) % 12
    }

    fn into(self) -> (n: PitchClassNum) {
        self % 12
    }
}

impl IntoPitchClassNum for u16 {
    open spec fn pitch_class_value(&self) -> int {
        (*self as int) % 12
    }

    fn into(self) -> (n: PitchClassNum) {
        (self % 12) as u8
    }
}

impl IntoPitchClassNum for u32 {
    open spec fn pitch_class_value(&self) -> int {
        (*self as int) % 12
    }

    fn into(self) -> (n: PitchClassNum) {
        (self % 12) as u8
    }
}

impl IntoPitchClassNum for u64 {
    open spec fn pitch_class_value(&self) -> int {
        (*self as int) % 12
    }

    fn into(self) -> (n: PitchClassNum) {
        (self % 12) as u8
    }
}

impl IntoPitchClassNum for u128 {
    open spec fn pitch_class_value(&self) -> int {
        (*self as int) % 12
    }

    fn into(self) -> (n: PitchClassNum) {
        (self % 12) as u8
    }
}

impl IntoPitchClassNum for usize {
    open spec fn pitch_class_value(&self) -> int {
        (*self as int) % 12
    }

    fn into(self) -> (n: PitchClassNum) {
        (self % 12) as u8
    }
}

impl IntoPitchClassNum for i8 {
    open spec fn pitch_class_value(&self) -> int {
        (*self as int) % 12
    }

    fn into(self) -> (n: PitchClassNum) {
        let shifted: u16 = (self as i16 + 132) as u16;
        proof {
            let x = self as int;
            assert((x + 132) % 12 == x % 12) by {
                vstd::arithmetic::div_mod::lemma_mod_add_multiples_vanish(x, 12);
                assert((x + 132) % 12 == (x + 12 * 11) % 12);
                vstd::arithmetic::div_mod::lemma_mod_multiples_vanish(11, x, 12);
            }
        }
        (shifted % 12) as u8
    }
}

impl IntoPitchClassNum for i16 {
    open spec fn pitch_class_value(&self) -> int {
        (*self as int) % 12
    }

    fn into(self) -> (n: PitchClassNum) {
        if self >= 0 {
            (self as u16 % 12) as u8
        } else {
            let m: u32 = ((-(self as i32)) as u32) % 12;
            proof {
                let x = self as int;
                assert(m == (-x) % 12);
                lemma_neg_mod(x);
            }
            if m == 0 { 0 } else { (12 - m) as u8 }
        }
    }
}

impl IntoPitchClassNum for i32 {
    open spec fn pitch_class_value(&self) -> int {
        (*self as int) % 12
    }

    fn into(self) -> (n: PitchClassNum) {
        if self >= 0 {
            (self as u32 % 12) as u8
        } else {
            let m: u64 = ((-(self as i64)) as u64) % 12;
            proof {
                let x = self as int;
                assert(m == (-x) % 12);
                lemma_neg_mod(x);
            }
            if m == 0 { 0 } else { (12 - m) as u8 }
        }
    }
}

impl IntoPitchClassNum for i64 {
    open spec fn pitch_class_value(&self) -> int {
        (*self as int) % 12
    }

    fn into(self) -> (n: PitchClassNum) {
        if self >= 0 {
            (self as u64 % 12) as u8
        } else {
            let m: u128 = ((-(self as i128)) as u128) % 12;
            proof {
                let x = self as int;
                assert(m == (-x) % 12);
                lemma_neg_mod(x);
            }
            if m == 0 { 0 } else { (12 - m) as u8 }
        }
    }
}

impl IntoPitchClassNum for isize {
    open spec fn pitch_class_value(&self) -> int {
        (*self as int) % 12
    }

    fn into(self) -> (n: PitchClassNum) {
        if self >= 0 {
            (self as usize % 12) as u8
        } else {
            let m: u128 = ((-(self as i128)) as u128) % 12;
            proof {
                let x = self as int;
                assert(m == (-x) % 12);
                lemma_neg_mod(x);
            }
            if m == 0 { 0 } else { (12 - m) as u8 }
        }
    }
}

impl IntoPitchClassNum for i128 {
    open spec fn pitch_class_value(&self) -> int {
        (*self as int) % 12
    }

    fn into(self) -> (n: PitchClassNum) {
        if self >= 0 {
            (self as u128 % 12) as u8
        } else {
            // -(x + 1) cannot overflow for negative x
            let m: u128 = ((-(self + 1)) as u128) % 12;
            proof {
                let x = self as int;
                assert(m == (-x - 1) % 12);
                lemma_neg_mod_shifted(x);
            }
            (11 - m) as u8
        }
    }
}

/// For negative `x`, the Euclidean residue of `x` mirrors that of `-x`.
proof fn lemma_neg_mod(x: int)
    requires
        x < 0,
    ensures
        ((-x) % 12 == 0 ==> x % 12 == 0),
        ((-x) % 12 != 0 ==> x % 12 == 12 - (-x) % 12),
{
    let y = -x;
    vstd::arithmetic::div_mod::lemma_fundamental_div_mod(y, 12);
    let q = y / 12;
    let r = y % 12;
    assert(x == -(12 * q) - r);
    if r == 0 {
        assert(x == 12 * (-q));
        vstd::arithmetic::div_mod::lemma_mod_multiples_basic(-q, 12);
    } else {
        assert(x == 12 * (-q - 1) + (12 - r));
        vstd::arithmetic::div_mod::lemma_fundamental_div_mod_converse_mod(x, 12, -q - 1, 12 - r);
    }
}

proof fn lemma_neg_mod_shifted(x: int)
    requires
        x < 0,
    ensures
        x % 12 == 11 - (-x - 1) % 12,
{
    let y = -x - 1;
    vstd::arithmetic::div_mod::lemma_fundamental_div_mod(y, 12);
    let q = y / 12;
    let r = y % 12;
    assert(x == 12 * (-q - 1) + (11 - r));
    vstd::arithmetic::div_mod::lemma_fundamental_div_mod_converse_mod(x, 12, -q - 1, 11 - r);
}

/// A concrete pitch: an octave and a pitch class number in [0, 12).
#[derive(Debug, Copy, Clone, PartialEq, Eq, Hash, PartialOrd, Ord, Structural)]
pub struct Pitch(Octave, PitchClassNum);

impl Pitch {
    #[verifier::type_invariant]
    spec fn inv(self) -> bool {
        self.1 < 12
    }

    pub closed spec fn spec_octave(self) -> Octave {
        self.0
    }

    pub closed spec fn spec_note_num(self) -> PitchClassNum {
        self.1
    }

    /// The pitch with octave `octave` and pitch class number `note`.
    pub closed spec fn spec_new(octave: int, note: int) -> Pitch {
        Pitch(octave as i8, note as u8)
    }

    /// Two pitches with the same octave and pitch class are the same pitch.
    pub proof fn lemma_pitch_eq(p: Pitch, q: Pitch)
        requires
            p.spec_octave() == q.spec_octave(),
            p.spec_note_num() == q.spec_note_num(),
        ensures
            p == q,
    {
    }

    /// The parts of `spec_new`.
    pub proof fn lemma_spec_new(octave: int, note: int)
        requires
            -128 <= octave <= 127,
            0 <= note < 12,
        ensures
            Pitch::spec_new(octave, note).spec_octave() == octave,
            Pitch::spec_new(octave, note).spec_note_num() == note,
    {
    }

    /// Every pitch has a pitch class number in [0, 12).
    pub fn note_num_in_range(&self)
        ensures
            self.spec_note_num() < 12,
    {
        proof {
            use_type_invariant(self);
        }
    }

    /// Create a pitch. The pitch class number is reduced into [0, 12).
    pub fn new<N: IntoPitchClassNum>(octave: Octave, note_num: N) -> (p: Pitch)
        ensures
            p.spec_octave() == octave,
            p.spec_note_num() == note_num.pitch_class_value(),
            p == Pitch::spec_new(octave as int, note_num.pitch_class_value()),
    {
        Pitch(octave, IntoPitchClassNum::into(note_num))
    }

    pub fn octave(&self) -> (o: Octave)
        ensures
            o == self.spec_octave(),
    {
        self.0
    }

    pub fn note_num(&self) -> (n: PitchClassNum)
        ensures
            n == self.spec_note_num(),
            n < 12,
    {
        proof {
            use_type_invariant(self);
        }
        self.1
    }

    pub fn data(&self) -> (d: (Octave, PitchClassNum))
        ensures
            d == (self.spec_octave(), self.spec_note_num()),
            d.1 < 12,
    {
        proof {
            use_type_invariant(self);
        }
        (self.0, self.1)
    }

    /// C4
    pub fn middle_c() -> (p: Pitch)
        ensures
            p.spec_octave() == 4,
            p.spec_note_num() == 0,
    {
        Pitch::new(4, PitchClass::C)
    }

    /// The placeholder pitch of rests: C0.
    pub fn none() -> (p: Pitch)
        ensures
            p.spec_octave() == 0,
            p.spec_note_num() == 0,
            p == Pitch::spec_new(0, 0),
    {
        Pitch(0, 0)
    }

    pub fn sharp(self) -> (p: Pitch)
        requires
            transpose_fits(self.spec_octave() as int, self.spec_note_num() as int, 1 as int),
        ensures
            p.spec_octave() == transposed_octave(self.spec_octave() as int, self.spec_note_num() as int, 1 as int),
            p.spec_note_num() == transposed_note(self.spec_note_num() as int, 1 as int),
    {
        self.transposed(1)
    }

    pub fn flat(self) -> (p: Pitch)
        requires
            transpose_fits(self.spec_octave() as int, self.spec_note_num() as int, -1 as int),
        ensures
            p.spec_octave() == transposed_octave(self.spec_octave() as int, self.spec_note_num() as int, -1 as int),
            p.spec_note_num() == transposed_note(self.spec_note_num() as int, -1 as int),
    {
        self.transposed(-1)
    }

    /// The MIDI note number `octave * 12 + note + 9`.
    pub fn to_midi_note(&self) -> (m: u8)
        requires
            self.spec_octave() >= 0,
            self.spec_octave() * 12 + self.spec_note_num() + 9 <= 255,
        ensures
            m == self.spec_octave() * 12 + self.spec_note_num() + 9,
    {
        let octave = self.0 as u8;
        octave * 12 + self.1 + 9
    }

    /// The letter name of the pitch class: C for 0, C# for 1, up to B for 11.
    pub fn letter_name(&self) -> (s: String)
        ensures
            s@ == letter_name_spec(self.spec_note_num() as int),
    {
        proof {
            use_type_invariant(self);
        }
        let note_num = self.1;
        let s = if note_num == 0 {
            "C"
        } else if note_num == 1 {
            "C#"
        } else if note_num == 2 {
            "D"
        } else if note_num == 3 {
            "Eb"
        } else if note_num == 4 {
            "E"
        } else if note_num == 5 {
            "F"
        } else if note_num == 6 {
            "F#"
        } else if note_num == 7 {
            "G"
        } else if note_num == 8 {
            "Ab"
        } else if note_num == 9 {
            "A"
        } else if note_num == 10 {
            "Bb"
        } else {
            "B"
        };
        proof {
            reveal_strlit("A");
            reveal_strlit("Bb");
            reveal_strlit("B");
            reveal_strlit("C");
            reveal_strlit("C#");
            reveal_strlit("D");
            reveal_strlit("Eb");
            reveal_strlit("E");
            reveal_strlit("F");
            reveal_strlit("F#");
            reveal_strlit("G");
            reveal_strlit("Ab");
        }
        String::from_str(s)
    }

    /// Move the pitch by `semitones`, carrying into the octave.
    pub fn transpose(&mut self, semitones: i8)
        requires
            transpose_fits(old(self).spec_octave() as int, old(self).spec_note_num() as int, semitones as int),
        ensures
            *final(self) == transposed_pitch(*old(self), semitones as int),
            final(self).spec_octave() == transposed_octave(old(self).spec_octave() as int, old(self).spec_note_num() as int, semitones as int),
            final(self).spec_note_num() == transposed_note(old(self).spec_note_num() as int, semitones as int),
    {
        proof {
            use_type_invariant(&*self);
        }
        let octave = self.0;
        let note_num = self.1;
        // shift by 11 octaves so that the division is over non-negative numbers
        let total: i8 = note_num as i8 + semitones;
        let shifted: u16 = (total as i16 + 132) as u16;
        let new_note_num: u8 = (shifted % 12) as u8;
        let carry: i8 = (shifted / 12) as i8 - 11;
        proof {
            let x = total as int;
            vstd::arithmetic::div_mod::lemma_fundamental_div_mod(x, 12);
            vstd::arithmetic::div_mod::lemma_fundamental_div_mod_converse(
                x + 132,
                12,
                x / 12 + 11,
                x % 12,
            );
        }
        let new_octave: i8 = octave + carry;
        *self = Pitch(new_octave, new_note_num);
        proof {
            vstd::arithmetic::div_mod::lemma_mod_bound((note_num as int + semitones as int), 12);
        }
    }

    pub fn transposed(&self, semitones: i8) -> (p: Pitch)
        requires
            transpose_fits(self.spec_octave() as int, self.spec_note_num() as int, semitones as int),
        ensures
            p.spec_octave() == transposed_octave(self.spec_octave() as int, self.spec_note_num() as int, semitones as int),
            p.spec_note_num() == transposed_note(self.spec_note_num() as int, semitones as int),
    {
        let mut new_pitch = *self;
        new_pitch.transpose(semitones);
        new_pitch
    }
}

/// The pitch after moving `p` by `semitones`.
pub open spec fn transposed_pitch(p: Pitch, semitones: int) -> Pitch {
    Pitch::spec_new(
        transposed_octave(p.spec_octave() as int, p.spec_note_num() as int, semitones),
        transposed_note(p.spec_note_num() as int, semitones),
    )
}

/// The pitch class number after moving by `semitones`.
pub open spec fn transposed_note(note: int, semitones: int) -> int {
    (note + semitones) % 12
}

/// The octave after moving by `semitones`: the old octave plus the floored quotient.
pub open spec fn transposed_octave(octave: int, note: int, semitones: int) -> int {
    octave + (note + semitones) / 12
}

/// Transposing stays within `i8` arithmetic: the sum of pitch class and interval, and the new
/// octave.
pub open spec fn transpose_fits(octave: int, note: int, semitones: int) -> bool {
    &&& note + semitones <= 127
    &&& -128 <= transposed_octave(octave as int, note as int, semitones as int) <= 127
}

/// The letter names of the pitch classes, C at 0: C C# D Eb E F F# G Ab A Bb B.
pub open spec fn letter_name_spec(n: int) -> Seq<char> {
    if n == 0 {
        seq!['C']
    } else if n == 1 {
        seq!['C', '#']
    } else if n == 2 {
        seq!['D']
    } else if n == 3 {
        seq!['E', 'b']
    } else if n == 4 {
        seq!['E']
    } else if n == 5 {
        seq!['F']
    } else if n == 6 {
        seq!['F', '#']
    } else if n == 7 {
        seq!['G']
    } else if n == 8 {
        seq!['A', 'b']
    } else if n == 9 {
        seq!['A']
    } else if n == 10 {
        seq!['B', 'b']
    } else {
        seq!['B']
    }
}


/// The number of semitones of a pitch above the C of octave zero.
pub open spec fn pitch_number(p: Pitch) -> int {
    12 * p.spec_octave() + p.spec_note_num()
}

/// Transposing moves a pitch by exactly `semitones` semitones, carrying into the octave, and
/// transposing back by the opposite interval gives the pitch again (whenever the new octave
/// is an `i8`).
pub proof fn lemma_transpose_round_trip(p: Pitch, semitones: int)
    requires
        p.spec_note_num() < 12,
        -128 <= transposed_octave(p.spec_octave() as int, p.spec_note_num() as int, semitones) <= 127,
    ensures
        pitch_number(transposed_pitch(p, semitones)) == pitch_number(p) + semitones,
        transposed_pitch(transposed_pitch(p, semitones), -semitones) == p,
{
    let o = p.spec_octave() as int;
    let n = p.spec_note_num() as int;
    let q = (n + semitones) / 12;
    let r = (n + semitones) % 12;
    vstd::arithmetic::div_mod::lemma_fundamental_div_mod(n + semitones, 12);
    vstd::arithmetic::div_mod::lemma_mod_bound(n + semitones, 12);
    Pitch::lemma_spec_new(o + q, r);
    let t = transposed_pitch(p, semitones);
    assert(t.spec_octave() == o + q && t.spec_note_num() == r);
    assert(r - semitones == 12 * (-q) + n);
    vstd::arithmetic::div_mod::lemma_fundamental_div_mod_converse(r - semitones, 12, -q, n);
    Pitch::lemma_spec_new(o, n);
    let b = transposed_pitch(t, -semitones);
    assert(b.spec_octave() == o && b.spec_note_num() == n);
    Pitch::lemma_pitch_eq(b, p);
}

/// Duration arithmetic is exact: adding `b` and then taking it away again gives back the
/// note value of `a`.
pub proof fn lemma_plus_minus_exact(a: Duration, b: Duration)
    requires
        a.value.0.lowest_terms(),
        0 <= b.value.0.n(),
        0 < b.value.0.d(),
        sum_fits(a.value.0, b.value.0),
        diff_fits(dur_plus(a, b).value.0, b.value.0),
    ensures
        dur_minus(dur_plus(a, b), b).value == a.value,
{
    a.value.0.lemma_lowest_terms();
    let (an, ad, bn, bd) = (a.value.0.n(), a.value.0.d(), b.value.0.n(), b.value.0.d());
    let x = an * bd + bn * ad;
    let y = ad * bd;
    assert(x >= 0 && y > 0) by (nonlinear_arith)
        requires
            x == an * bd + bn * ad,
            y == ad * bd,
            an >= 0,
            ad > 0,
            bn >= 0,
            bd > 0,
    ;
    Ratio::lemma_lowest(x, y);
    let sv = dur_plus(a, b).value.0;
    let (sn, sd) = (sv.n(), sv.d());
    assert(sn * y == x * sd);
    let u = sn * bd - bn * sd;
    let w = sd * bd;
    assert(w > 0) by (nonlinear_arith)
        requires
            w == sd * bd,
            sd > 0,
            bd > 0,
    ;
    Ratio::lemma_lowest(u, w);
    let m = dur_minus(dur_plus(a, b), b).value.0;
    assert(same_value(m.n(), m.d(), u, w));
    assert(sn * bd * ad == an * bd * sd + bn * ad * sd) by (nonlinear_arith)
        requires
            sn * (ad * bd) == (an * bd + bn * ad) * sd,
    ;
    assert(u * ad == sn * bd * ad - bn * sd * ad) by (nonlinear_arith)
        requires
            u == sn * bd - bn * sd,
    ;
    assert(an * w == an * bd * sd) by (nonlinear_arith)
        requires
            w == sd * bd,
    ;
    assert(bn * ad * sd == bn * sd * ad) by (nonlinear_arith);
    assert(same_value(u, w, an, ad));
    assert(same_value(an, ad, u, w));
    Ratio::lemma_lowest_same(a.value.0, u, w);
}

/// A duration splits exactly into its whole measures and its remaining beats: so many
/// measures of beats, and the remaining beats, make up all of its beats.
pub proof fn lemma_measures_and_beats_recompose(d: Duration)
    requires
        0 <= d.value.0.n(),
        0 < d.value.0.d() <= u32::MAX,
        duration_fits(d),
    ensures
        same_value(
            total_beats_spec(whole_measures_spec(d), rem_beats_spec(d), d.time_signature).n(),
            total_beats_spec(whole_measures_spec(d), rem_beats_spec(d), d.time_signature).d(),
            beats_spec(d).n(),
            beats_spec(d).d(),
        ),
        d.value.0.lowest_terms() && d.time_signature.1 > 0 && d.time_signature.1 * d.value.0.d()
            <= u32::MAX ==> beats_note_value(
            d.time_signature,
            total_beats_spec(whole_measures_spec(d), rem_beats_spec(d), d.time_signature),
        ) == d.value,
{
    let (vn, vd) = (d.value.0.n(), d.value.0.d());
    let (num, den) = (d.time_signature.0 as int, d.time_signature.1 as int);
    let x = vn * den;
    assert(x >= 0) by (nonlinear_arith)
        requires
            x == vn * den,
            vn >= 0,
            den >= 0,
    ;
    Ratio::lemma_lowest(x, vd);
    let b = beats_spec(d);
    let (bn, bd) = (b.n(), b.d());
    assert(bn * vd == x * bd);
    assert(bd * num > 0 && vd * num > 0) by (nonlinear_arith)
        requires
            bd > 0,
            vd > 0,
            num > 0,
    ;
    assert(same_value(bn, bd * num, x, vd * num)) by (nonlinear_arith)
        requires
            bn * vd == x * bd,
    ;
    lemma_same_value_floor(bn, bd * num, x, vd * num);
    let q = whole_measures_spec(d);
    assert(q == bn / (bd * num));
    let m = bd * num;
    vstd::arithmetic::div_mod::lemma_fundamental_div_mod(bn, m);
    vstd::arithmetic::div_mod::lemma_mod_bound(bn, m);
    let r = bn % m;
    assert(bn == m * q + r);
    assert(q >= 0) by (nonlinear_arith)
        requires
            bn >= 0,
            m > 0,
            q == bn / m,
    ;
    assert(r <= bn) by (nonlinear_arith)
        requires
            bn == m * q + r,
            m > 0,
            q >= 0,
            r >= 0,
    ;
    Ratio::lemma_lowest(r, bd);
    let rem = rem_beats_spec(d);
    assert(rem == Ratio::lowest(r, bd));
    let (rn, rd) = (rem.n(), rem.d());
    assert(rn * bd == r * rd);
    let t = q * num * rd + rn;
    assert(t <= bn) by (nonlinear_arith)
        requires
            t == q * num * rd + rn,
            bn == bd * num * q + r,
            rd <= bd,
            rn <= r,
            q >= 0,
            num > 0,
    {
        assert(q * num * rd <= q * num * bd);
    }
    assert(t >= 0) by (nonlinear_arith)
        requires
            t == q * num * rd + rn,
            rn >= 0,
            rd > 0,
            q >= 0,
            num > 0,
    ;
    Ratio::lemma_lowest(t, rd);
    let tot = total_beats_spec(q, rem, d.time_signature);
    assert(tot == Ratio::lowest(t, rd));
    assert(t * bd == q * num * rd * bd + rn * bd) by (nonlinear_arith)
        requires
            t == q * num * rd + rn,
    ;
    assert(bn * rd == bd * num * q * rd + r * rd) by (nonlinear_arith)
        requires
            bn == bd * num * q + r,
    ;
    assert(q * num * rd * bd == bd * num * q * rd) by (nonlinear_arith);
    assert(same_value(t, rd, bn, bd));
    lemma_same_value_trans(tot.n(), tot.d(), t, rd, bn, bd);
    if d.value.0.lowest_terms() && den > 0 && den * vd <= u32::MAX {
        let (tn, td) = (tot.n(), tot.d());
        assert(tn * vd == vn * (den * td)) by (nonlinear_arith)
            requires
                tn * bd == bn * td,
                bn * vd == vn * den * bd,
                bd > 0,
        {
            assert(tn * vd * bd == bn * td * vd);
            assert(bn * vd * td == vn * den * bd * td);
        }
        assert(0 < den * td <= den * vd) by (nonlinear_arith)
            requires
                0 < td <= rd,
                rd <= bd,
                bd <= vd,
                den > 0,
        ;
        Ratio::lemma_lowest_same(d.value.0, tn, den * td);
    }
}

/// Taking `b` away from `a` and adding it back again gives a duration as long as `a`, and
/// the very note value of `a` when that is in lowest terms, as every note value is.
pub proof fn lemma_minus_plus_exact(a: Duration, b: Duration)
    requires
        0 <= a.value.0.n(),
        0 < a.value.0.d() <= u32::MAX,
        0 <= b.value.0.n(),
        0 < b.value.0.d() <= u32::MAX,
        diff_fits(a.value.0, b.value.0),
        sum_fits(b.value.0, dur_minus(a, b).value.0),
    ensures
        dur_plus(b, dur_minus(a, b)).value.0.d() > 0,
        same_value(
            dur_plus(b, dur_minus(a, b)).value.0.n(),
            dur_plus(b, dur_minus(a, b)).value.0.d(),
            a.value.0.n(),
            a.value.0.d(),
        ),
        a.value.0.lowest_terms() ==> dur_plus(b, dur_minus(a, b)).value == a.value,
{
    let (an, ad, bn, bd) = (a.value.0.n(), a.value.0.d(), b.value.0.n(), b.value.0.d());
    let x = an * bd - bn * ad;
    let y = ad * bd;
    assert(y > 0) by (nonlinear_arith)
        requires
            y == ad * bd,
            ad > 0,
            bd > 0,
    ;
    Ratio::lemma_lowest(x, y);
    let dv = dur_minus(a, b).value.0;
    let (dn, dd) = (dv.n(), dv.d());
    assert(dn * y == x * dd);
    let u = bn * dd + dn * bd;
    let w = bd * dd;
    assert(u >= 0 && w > 0) by (nonlinear_arith)
        requires
            u == bn * dd + dn * bd,
            w == bd * dd,
            bn >= 0,
            dn >= 0,
            bd > 0,
            dd > 0,
    ;
    Ratio::lemma_lowest(u, w);
    let m = dur_plus(b, dur_minus(a, b)).value.0;
    assert(same_value(m.n(), m.d(), u, w));
    assert(dn * ad * bd == an * bd * dd - bn * ad * dd) by (nonlinear_arith)
        requires
            dn * (ad * bd) == (an * bd - bn * ad) * dd,
    ;
    assert(u * ad == bn * dd * ad + dn * bd * ad) by (nonlinear_arith)
        requires
            u == bn * dd + dn * bd,
    ;
    assert(an * w == an * bd * dd) by (nonlinear_arith)
        requires
            w == bd * dd,
    ;
    assert(dn * bd * ad == dn * ad * bd) by (nonlinear_arith);
    assert(bn * dd * ad == bn * ad * dd) by (nonlinear_arith);
    assert(same_value(u, w, an, ad));
    lemma_same_value_trans(m.n(), m.d(), u, w, an, ad);
    if a.value.0.lowest_terms() {
        assert(same_value(an, ad, u, w));
        Ratio::lemma_lowest_same(a.value.0, u, w);
    }
}

/// `b` is a power of two: 1, 2, 4, 8, ...
pub open spec fn is_pow2(b: int) -> bool
    decreases b,
{
    if b <= 0 {
        false
    } else if b == 1 {
        true
    } else {
        b % 2 == 0 && is_pow2(b / 2)
    }
}

/// Two to the power `k`.
pub open spec fn two_to(k: nat) -> int
    decreases k,
{
    if k == 0 {
        1
    } else {
        2 * two_to((k - 1) as nat)
    }
}

/// The finest note-value denominator that a binary expansion may use: `2^(-p)` for a power
/// `p` at most 0 (1 for a larger one); no limit without one, or for one so small that no
/// `u32` denominator reaches it.
pub open spec fn expand_limit(min_power: Option<i32>) -> Option<int> {
    match min_power {
        None => None,
        Some(p) => if p >= 0 {
            Some(1)
        } else if p < -31 {
            None
        } else {
            Some(two_to((-p) as nat))
        },
    }
}

/// The denominators of the binary digits of `x` counted in units of `u` (so in halves of
/// `u`, quarters of `u`, ...), the first digit being worth `1/d`; digits finer than the limit
/// are left out.
pub open spec fn frac_denoms(x: int, u: int, d: int, limit: Option<int>) -> Seq<int>
    decreases u,
{
    if u <= 0 {
        Seq::empty()
    } else if limit matches Some(l) && d > l {
        Seq::empty()
    } else if x >= u {
        seq![d] + frac_denoms(x - u, u / 2, 2 * d, limit)
    } else {
        frac_denoms(x, u / 2, 2 * d, limit)
    }
}

/// `n` whole notes, as denominators.
pub open spec fn whole_ones(n: nat) -> Seq<int> {
    Seq::new(n, |i: int| 1int)
}

/// The denominators of the pieces of a binary expansion of the value `v`: one whole note for
/// each whole, then the binary digits of the rest, largest first.
pub open spec fn expand_denoms(v: Ratio, limit: Option<int>) -> Seq<int> {
    whole_ones((v.n() / v.d()) as nat) + frac_denoms(v.n() % v.d(), v.d() / 2, 2, limit)
}

/// The piece of a binary expansion whose note value is `1/den`.
pub open spec fn unit_piece(ts: TimeSignature, den: int) -> Duration {
    Duration { value: NoteValue(Ratio::lowest(1, den)), time_signature: ts }
}

/// The total of `b / d` over the denominators `d`: what the pieces are worth in units of `1/b`.
pub open spec fn sum_units(ds: Seq<int>, b: int) -> int
    decreases ds.len(),
{
    if ds.len() == 0 {
        0
    } else {
        b / ds[0] + sum_units(ds.drop_first(), b)
    }
}

proof fn lemma_sum_units_append(a: Seq<int>, c: Seq<int>, b: int)
    ensures
        sum_units(a + c, b) == sum_units(a, b) + sum_units(c, b),
    decreases a.len(),
{
    if a.len() == 0 {
        assert(a + c =~= c);
    } else {
        assert((a + c).drop_first() =~= a.drop_first() + c);
        lemma_sum_units_append(a.drop_first(), c, b);
    }
}

proof fn lemma_sum_units_ones(n: nat, b: int)
    ensures
        sum_units(whole_ones(n), b) == n * b,
    decreases n,
{
    if n > 0 {
        assert(whole_ones(n).drop_first() =~= whole_ones((n - 1) as nat));
        let ones = whole_ones(n);
        assert(ones[0] == 1);
        assert(b / 1 == b);
        lemma_sum_units_ones((n - 1) as nat, b);
        assert(sum_units(ones, b) == b / ones[0] + sum_units(ones.drop_first(), b));
        let m = (n - 1) as nat;
        assert(n * b == b + m * b) by (nonlinear_arith)
            requires
                m == n - 1,
        ;
    } else {
        assert(whole_ones(n).len() == 0);
        assert(n * b == 0) by (nonlinear_arith)
            requires
                n == 0,
        ;
    }
}

/// Without a limit the digits of `x`, counted from the unit `u` on, add up to `x` and are
/// powers of two.
proof fn lemma_frac_denoms(x: int, u: int, d: int, b: int)
    requires
        (u == 0 && x == 0) || (is_pow2(u) && 0 <= x < 2 * u && u * d == b),
        is_pow2(d),
    ensures
        sum_units(frac_denoms(x, u, d, None), b) == x,
        forall|i: int| 0 <= i < frac_denoms(x, u, d, None).len() ==> is_pow2(
            #[trigger] frac_denoms(x, u, d, None)[i],
        ),
    decreases u,
{
    if u > 0 {
        assert(d > 0);
        assert(is_pow2(2 * d)) by {
            assert((2 * d) % 2 == 0 && (2 * d) / 2 == d);
        }
        if u >= 2 {
            assert(u % 2 == 0 && is_pow2(u / 2));
            assert(u == 2 * (u / 2));
            assert((u / 2) * (2 * d) == b) by (nonlinear_arith)
                requires
                    u * d == b,
                    u == 2 * (u / 2),
            ;
        } else {
            assert(u == 1);
            assert(b == d) by (nonlinear_arith)
                requires
                    u == 1,
                    u * d == b,
            ;
        }
        assert(d > 0);
        assert(b / d == u) by (nonlinear_arith)
            requires
                u * d == b,
                d > 0,
        ;
        if x >= u {
            lemma_frac_denoms(x - u, u / 2, 2 * d, b);
            let rest = frac_denoms(x - u, u / 2, 2 * d, None);
            assert((seq![d] + rest).drop_first() =~= rest);
            assert((seq![d] + rest)[0] == d);
            assert forall|i: int| 0 <= i < (seq![d] + rest).len() implies is_pow2(
                #[trigger] (seq![d] + rest)[i],
            ) by {
                if i > 0 {
                    assert((seq![d] + rest)[i] == rest[i - 1]);
                }
            }
        } else {
            lemma_frac_denoms(x, u / 2, 2 * d, b);
        }
    }
}

/// A binary expansion without a limit is exact: its pieces are powers of two (whole notes,
/// halves, quarters, ...) and, when the denominator of the value is a power of two, they add
/// up to the value: so many units of `1/v.d()` as the numerator counts.
pub proof fn lemma_binary_expansion_exact(v: Ratio)
    requires
        v.d() > 0,
        v.n() >= 0,
        is_pow2(v.d()),
    ensures
        sum_units(expand_denoms(v, None), v.d()) == v.n(),
        forall|i: int| 0 <= i < expand_denoms(v, None).len() ==> is_pow2(
            #[trigger] expand_denoms(v, None)[i],
        ),
{
    let b = v.d();
    let w = (v.n() / b) as nat;
    let x = v.n() % b;
    vstd::arithmetic::div_mod::lemma_fundamental_div_mod(v.n(), b);
    vstd::arithmetic::div_mod::lemma_mod_bound(v.n(), b);
    let ones = whole_ones(w);
    if b == 1 {
        assert(x == 0);
        assert(frac_denoms(x, b / 2, 2, None) =~= Seq::<int>::empty());
    } else {
        assert(b % 2 == 0 && is_pow2(b / 2));
        assert(b == 2 * (b / 2));
        assert(is_pow2(2)) by {
            reveal_with_fuel(is_pow2, 2);
        }
        lemma_frac_denoms(x, b / 2, 2, b);
    }
    let fr = frac_denoms(x, b / 2, 2, None);
    lemma_sum_units_append(ones, fr, b);
    lemma_sum_units_ones(w, b);
    assert(w * b == b * (v.n() / b)) by (nonlinear_arith)
        requires
            w == v.n() / b,
            v.n() / b >= 0,
    ;
    assert forall|i: int| 0 <= i < (ones + fr).len() implies is_pow2(#[trigger] (ones + fr)[i]) by {
        if i >= w {
            assert((ones + fr)[i] == fr[i - w]);
        }
    }
}

impl NoteValue {
    /// The note value can be written as tied standard notes: its denominator is a power of
    /// two.
    pub fn binary_expandable(&self) -> (b: bool)
        ensures
            b == is_pow2(self.0.d()),
    {
        Duration { value: *self, time_signature: TimeSignature(4, 4) }.binary_expandable()
    }

    /// The note value cut into standard note values, largest first, as
    /// `Duration::binary_expand` cuts a duration.
    pub fn binary_expand(&self, min_power: Option<i32>) -> (v: Vec<NoteValue>)
        ensures
            v@.len() == expand_denoms(self.0, expand_limit(min_power)).len(),
            forall|i: int|
                0 <= i < v@.len() ==> #[trigger] v@[i] == NoteValue(
                    Ratio::lowest(1, expand_denoms(self.0, expand_limit(min_power))[i]),
                ),
    {
        let ts = TimeSignature(4, 4);
        let pieces = Duration { value: *self, time_signature: ts }.binary_expand(min_power);
        let ghost dens = expand_denoms(self.0, expand_limit(min_power));
        let mut v: Vec<NoteValue> = Vec::new();
        let mut i: usize = 0;
        while i < pieces.len()
            invariant
                i <= pieces@.len(),
                pieces@.len() == dens.len(),
                forall|k: int| 0 <= k < pieces@.len() ==> #[trigger] pieces@[k] == unit_piece(ts, dens[k]),
                v@.len() == i,
                forall|k: int| 0 <= k < i ==> #[trigger] v@[k] == NoteValue(Ratio::lowest(1, dens[k])),
            decreases pieces@.len() - i,
        {
            assert(pieces@[i as int] == unit_piece(ts, dens[i as int]));
            v.push(pieces[i].value);
            i = i + 1;
        }
        v
    }
}

impl Duration {
    /// The note value can be written as tied standard notes: its denominator is a power of
    /// two.
    pub fn binary_expandable(&self) -> (b: bool)
        ensures
            b == is_pow2(self.value.0.d()),
    {
        let mut d = self.value.0.denom();
        while d > 1 && d % 2 == 0
            invariant
                d >= 1,
                is_pow2(self.value.0.d()) == is_pow2(d as int),
            decreases d,
        {
            d = d / 2;
        }
        d == 1
    }

    /// The duration cut into standard note values, largest first: one whole note for each
    /// whole, then halves, quarters and so on as the binary digits of the rest say, none
    /// finer than `2^min_power` of a whole note when a power is given.
    pub fn binary_expand(&self, min_power: Option<i32>) -> (v: Vec<Duration>)
        ensures
            v@.len() == expand_denoms(self.value.0, expand_limit(min_power)).len(),
            forall|i: int|
                0 <= i < v@.len() ==> #[trigger] v@[i] == unit_piece(
                    self.time_signature,
                    expand_denoms(self.value.0, expand_limit(min_power))[i],
                ),
    {
        let ghost limit = expand_limit(min_power);
        let n = self.value.0.numer();
        let b = self.value.0.denom();
        let lim: Option<u64> = match min_power {
            None => None,
            Some(p) => if p >= 0 {
                Some(1)
            } else if p < -31 {
                None
            } else {
                let k = (0 - p) as u32;
                let mut t: u64 = 1;
                let mut j: u32 = 0;
                while j < k
                    invariant
                        j <= k <= 31,
                        t == two_to(j as nat),
                        t <= 0x8000_0000,
                    decreases k - j,
                {
                    assert(two_to((j + 1) as nat) == 2 * two_to(j as nat));
                    assert(t <= 0x4000_0000) by {
                        lemma_two_to_bound(j as nat);
                    }
                    t = t * 2;
                    j = j + 1;
                }
                Some(t)
            },
        };
        assert(match lim {
            None => limit is None,
            Some(l) => limit == Some(l as int),
        });
        let ghost dens = expand_denoms(self.value.0, limit);
        let mut v: Vec<Duration> = Vec::new();
        let wholes = n / b;
        let mut i: u32 = 0;
        while i < wholes
            invariant
                i <= wholes,
                wholes == self.value.0.n() / self.value.0.d(),
                dens == expand_denoms(self.value.0, limit),
                v@.len() == i,
                forall|k: int|
                    0 <= k < i ==> #[trigger] v@[k] == unit_piece(self.time_signature, dens[k]),
            decreases wholes - i,
        {
            let one = Ratio::from_integer(1);
            assert(dens[i as int] == 1);
            v.push(Duration { value: NoteValue(one), time_signature: self.time_signature });
            i = i + 1;
        }
        let mut x: u64 = (n % b) as u64;
        let mut u: u64 = (b / 2) as u64;
        let mut den: u64 = 2;
        let ghost tail = frac_denoms(x as int, u as int, den as int, limit);
        assert(dens =~= whole_ones(wholes as nat) + tail);
        let ghost mut done: Seq<int> = Seq::empty();
        let lim_on = lim.is_some();
        let lim_val: u64 = match lim {
            Some(l) => l,
            None => 0,
        };
        while u > 0 && (!lim_on || den <= lim_val)
            invariant
                lim_on == lim.is_some(),
                lim_on ==> lim == Some(lim_val),
                dens == whole_ones(wholes as nat) + done + frac_denoms(
                    x as int,
                    u as int,
                    den as int,
                    limit,
                ),
                v@.len() == wholes + done.len(),
                forall|k: int|
                    0 <= k < v@.len() ==> #[trigger] v@[k] == unit_piece(self.time_signature, dens[k]),
                wholes == self.value.0.n() / self.value.0.d(),
                b == self.value.0.d(),
                b > 0,
                den >= 2,
                u as int == (b as int) / (den as int),
                den <= 2 * (b as int),
                match lim {
                    None => limit is None,
                    Some(l) => limit == Some(l as int),
                },
            decreases u,
        {
            assert(den <= b) by {
                vstd::arithmetic::div_mod::lemma_fundamental_div_mod(b as int, den as int);
                assert(den * u >= den) by (nonlinear_arith)
                    requires
                        u >= 1,
                        den >= 2,
                ;
            }
            let ghost old_x = x as int;
            let ghost old_u = u as int;
            let ghost old_den = den as int;
            if x >= u {
                let r = Ratio::new(1, den as u32);
                proof {
                    Ratio::lemma_lowest_unit(den as int);
                }
                let ghost pos = v@.len() as int;
                v.push(Duration { value: NoteValue(r), time_signature: self.time_signature });
                proof {
                    assert(frac_denoms(old_x, old_u, old_den, limit) == seq![old_den] + frac_denoms(
                        old_x - old_u,
                        old_u / 2,
                        2 * old_den,
                        limit,
                    ));
                    assert(whole_ones(wholes as nat) + done + (seq![old_den]
                        + frac_denoms(old_x - old_u, old_u / 2, 2 * old_den, limit))
                        =~= whole_ones(wholes as nat) + done.push(old_den)
                        + frac_denoms(old_x - old_u, old_u / 2, 2 * old_den, limit));
                    done = done.push(old_den);
                    assert(dens[pos] == old_den);
                }
                x = x - u;
            } else {
                assert(frac_denoms(old_x, old_u, old_den, limit) == frac_denoms(
                    old_x,
                    old_u / 2,
                    2 * old_den,
                    limit,
                ));
            }
            proof {
                vstd::arithmetic::div_mod::lemma_div_denominator(b as int, den as int, 2);
            }
            u = u / 2;
            den = den * 2;
        }
        proof {
            assert(frac_denoms(x as int, u as int, den as int, limit) =~= Seq::<int>::empty());
            assert(dens =~= whole_ones(wholes as nat) + done);
        }
        v
    }
}

proof fn lemma_two_to_mono(i: nat, j: nat)
    requires
        i <= j,
    ensures
        1 <= two_to(i) <= two_to(j),
    decreases j,
{
    if j > i {
        lemma_two_to_mono(i, (j - 1) as nat);
    } else {
        lemma_two_to_pos(j);
    }
}

proof fn lemma_two_to_pow2(k: nat)
    ensures
        two_to(k) == vstd::arithmetic::power2::pow2(k),
    decreases k,
{
    if k > 0 {
        lemma_two_to_pow2((k - 1) as nat);
        vstd::arithmetic::power2::lemma_pow2_unfold(k);
    } else {
        vstd::arithmetic::power2::lemma2_to64();
    }
}

proof fn lemma_two_to_pos(j: nat)
    ensures
        two_to(j) >= 1,
    decreases j,
{
    if j > 0 {
        lemma_two_to_pos((j - 1) as nat);
    }
}

proof fn lemma_two_to_bound(j: nat)
    requires
        j < 31,
    ensures
        two_to(j) <= 0x4000_0000,
        two_to(j) >= 1,
{
    lemma_two_to_mono(j, 30);
    lemma_two_to_pow2(30);
    vstd::arithmetic::power2::lemma2_to64();
}

} // verus!
