use vstd::prelude::*;
use crate::pitch_class_space::{PitchClassSpace, total_distance_spec, distance_defined};

verus! {

/// The distance between two chords, d(a -> b).
pub open spec fn chord_dist(a: PitchClassSpace, b: PitchClassSpace) -> int {
    total_distance_spec(a.highest_levels@, b.highest_levels@)
}

/// The distance from `a` to `b` can be computed.
pub open spec fn chord_dist_defined(a: PitchClassSpace, b: PitchClassSpace) -> bool {
    distance_defined(a.highest_levels@, b.highest_levels@)
}

/// The chord before position `i` of a progression that starts from `initial`.
pub open spec fn previous_chord(chords: Seq<PitchClassSpace>, initial: PitchClassSpace, i: int)
    -> PitchClassSpace {
    if i == 0 {
        initial
    } else {
        chords[i - 1]
    }
}

/// Every step of the progression from `initial` through `chords` has a defined distance.
pub open spec fn steps_defined(chords: Seq<PitchClassSpace>, initial: PitchClassSpace) -> bool {
    forall|i: int|
        0 <= i < chords.len() ==> #[trigger] chord_dist_defined(
            previous_chord(chords, initial, i),
            chords[i],
        )
}

/// The sum of the distances of the first `n` steps of the progression.
pub open spec fn interchordal_upto(chords: Seq<PitchClassSpace>, initial: PitchClassSpace, n: int)
    -> int
    decreases n,
{
    if n <= 0 {
        0
    } else {
        interchordal_upto(chords, initial, n - 1) + chord_dist(
            previous_chord(chords, initial, n - 1),
            chords[n - 1],
        )
    }
}

/// The largest distance from `initial` to one of the first `n` chords, 0 if there is none.
pub open spec fn max_distance_upto(chords: Seq<PitchClassSpace>, initial: PitchClassSpace, n: int)
    -> int
    decreases n,
{
    if n <= 0 {
        0
    } else {
        let m = max_distance_upto(chords, initial, n - 1);
        let d = chord_dist(initial, chords[n - 1]);
        if d > m {
            d
        } else {
            m
        }
    }
}

/// The sum over the first `n` steps does not look past the `n`-th chord.
proof fn lemma_interchordal_prefix(
    chords: Seq<PitchClassSpace>,
    initial: PitchClassSpace,
    c: PitchClassSpace,
    n: int,
)
    requires
        0 <= n <= chords.len(),
    ensures
        interchordal_upto(chords.push(c), initial, n) == interchordal_upto(chords, initial, n),
    decreases n,
{
    if n > 0 {
        lemma_interchordal_prefix(chords, initial, c, n - 1);
        assert(chords.push(c)[n - 1] == chords[n - 1]);
        if n >= 2 {
            assert(chords.push(c)[n - 2] == chords[n - 2]);
        }
    }
}

/// The total distance of an empty progression is 0, and one more chord adds the distance to
/// it from the chord before, which is the initial chord when there was none.
pub proof fn lemma_interchordal_append(
    chords: Seq<PitchClassSpace>,
    initial: PitchClassSpace,
    c: PitchClassSpace,
)
    ensures
        interchordal_upto(Seq::<PitchClassSpace>::empty(), initial, 0) == 0,
        interchordal_upto(chords.push(c), initial, chords.len() as int + 1) == interchordal_upto(
            chords,
            initial,
            chords.len() as int,
        ) + chord_dist(
            if chords.len() == 0 {
                initial
            } else {
                chords.last()
            },
            c,
        ),
{
    lemma_interchordal_prefix(chords, initial, c, chords.len() as int);
    assert(chords.push(c)[chords.len() as int] == c);
    if chords.len() > 0 {
        assert(chords.push(c)[chords.len() - 1] == chords.last());
    }
}

/// Distances between sequential chords summed up.
/// This is smoother if it is minimized.
/// The progression must hold at most `usize::MAX / 64` chords, a machine limit: a distance
/// is at most 64, so every sum of distances along the progression then fits in a `usize`.
pub fn get_total_interchordal_distances(chords: &Vec<PitchClassSpace>, initial: &PitchClassSpace)
    -> (total: usize)
    requires
        steps_defined(chords@, *initial),
        chords@.len() * 64 <= usize::MAX,
    ensures
        total == interchordal_upto(chords@, *initial, chords@.len() as int),
{
    let mut total: usize = 0;
    let mut prev = initial;
    let mut i: usize = 0;
    while i < chords.len()
        invariant
            steps_defined(chords@, *initial),
            chords@.len() * 64 <= usize::MAX,
            i <= chords@.len(),
            *prev == previous_chord(chords@, *initial, i as int),
            total == interchordal_upto(chords@, *initial, i as int),
            total <= 64 * i,
        decreases chords@.len() - i,
    {
        let chord = &chords[i];
        assert(chord_dist_defined(previous_chord(chords@, *initial, i as int), chords@[i as int]));
        total = total + prev.total_distance(chord);
        prev = chord;
        i = i + 1;
    }
    total
}

/// The distance of the most distant chord from the initial chord.
/// This travels more if it is maximized.
pub fn get_maximum_distance(chords: &Vec<PitchClassSpace>, initial: &PitchClassSpace) -> (m: usize)
    requires
        forall|i: int| 0 <= i < chords@.len() ==> #[trigger] chord_dist_defined(*initial, chords@[i]),
    ensures
        m == max_distance_upto(chords@, *initial, chords@.len() as int),
{
    let mut best: usize = 0;
    let mut i: usize = 0;
    while i < chords.len()
        invariant
            forall|i: int| 0 <= i < chords@.len() ==> #[trigger] chord_dist_defined(*initial, chords@[i]),
            i <= chords@.len(),
            best == max_distance_upto(chords@, *initial, i as int),
        decreases chords@.len() - i,
    {
        assert(chord_dist_defined(*initial, chords@[i as int]));
        let d = initial.total_distance(&chords[i]);
        if d > best {
            best = d;
        }
        i = i + 1;
    }
    best
}

} // verus!
