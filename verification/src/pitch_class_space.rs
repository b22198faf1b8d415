use vstd::prelude::*;
use vstd::string::StringExecFns;
use crate::text::{str_to_chars, chars_eq_str};

verus! {

/// Levels of Lerdahl's basic space, from the least to the most stable:
/// e (chromatic), d (diatonic), c (triadic), b (fifth), a (octave).
#[derive(Debug, Clone, Copy, PartialEq, Eq, PartialOrd, Ord, Structural)]
pub enum SpaceLevel {
    Chromatic,
    Diatonic,
    Triadic,
    Fifth,
    Octave,
}

/// The height of a level: Chromatic is 1, Octave is 5.
pub open spec fn lvl(l: SpaceLevel) -> int {
    match l {
        SpaceLevel::Chromatic => 1,
        SpaceLevel::Diatonic => 2,
        SpaceLevel::Triadic => 3,
        SpaceLevel::Fifth => 4,
        SpaceLevel::Octave => 5,
    }
}

/// A pitch class whose highest level is `l` appears on level `level`.
pub open spec fn on_level(l: SpaceLevel, level: SpaceLevel) -> bool {
    lvl(level) <= lvl(l)
}

impl SpaceLevel {
    /// The height of the level: Chromatic is 1, Octave is 5.
    pub fn to_int(self) -> (n: isize)
        ensures
            n == lvl(self),
    {
        match self {
            SpaceLevel::Chromatic => 1,
            SpaceLevel::Diatonic => 2,
            SpaceLevel::Triadic => 3,
            SpaceLevel::Fifth => 4,
            SpaceLevel::Octave => 5,
        }
    }

    /// The difference in height between two levels.
    pub fn difference(self, rhs: SpaceLevel) -> (d: isize)
        ensures
            d == lvl(self) - lvl(rhs),
    {
        self.to_int() - rhs.to_int()
    }
}

pub const A: SpaceLevel = SpaceLevel::Octave;

pub const B: SpaceLevel = SpaceLevel::Fifth;

pub const C: SpaceLevel = SpaceLevel::Triadic;

pub const D: SpaceLevel = SpaceLevel::Diatonic;

pub const E: SpaceLevel = SpaceLevel::Chromatic;

pub const NUM_LEVELS: usize = 5;

/// The basic space of a chord in a region: the highest level of each of the 12 pitch classes.
#[derive(Debug, Clone, Copy, PartialEq, Eq)]
pub struct PitchClassSpace {
    /// Highest level starting with pc0, etc.
    pub highest_levels: [SpaceLevel; 12],
}

/// The pitch classes among the first `n` that appear on `level`, in increasing order.
pub open spec fn steps_spec(v: Seq<SpaceLevel>, level: SpaceLevel, n: int) -> Seq<usize>
    decreases n,
{
    if n <= 0 {
        Seq::empty()
    } else {
        let s = steps_spec(v, level, n - 1);
        if on_level(v[n - 1], level) {
            s.push((n - 1) as usize)
        } else {
            s
        }
    }
}

/// The steps of `level` in a space.
pub open spec fn steps_of(v: Seq<SpaceLevel>, level: SpaceLevel) -> Seq<usize> {
    steps_spec(v, level, 12)
}

/// The position of pitch class `q` among the steps of `level` (the number of steps below it).
pub open spec fn step_index(v: Seq<SpaceLevel>, level: SpaceLevel, q: int) -> int {
    steps_spec(v, level, q).len() as int
}

/// Rotating on a level: every pitch class on the level takes the highest level of the step
/// `units` steps below it along that level; the others keep theirs.
pub open spec fn rotate_spec(v: Seq<SpaceLevel>, level: SpaceLevel, units: int) -> Seq<SpaceLevel> {
    let steps = steps_of(v, level);
    let len = steps.len() as int;
    Seq::new(
        12,
        |q: int|
            if on_level(v[q], level) {
                v[steps[(step_index(v, level, q) - units % len) % len] as int]
            } else {
                v[q]
            },
    )
}

proof fn lemma_steps(v: Seq<SpaceLevel>, level: SpaceLevel, n: int)
    requires
        0 <= n <= v.len(),
        n <= 12,
    ensures
        forall|k: int|
            0 <= k < steps_spec(v, level, n).len() ==> {
                &&& 0 <= #[trigger] steps_spec(v, level, n)[k] < n
                &&& on_level(v[steps_spec(v, level, n)[k] as int], level)
                &&& step_index(v, level, steps_spec(v, level, n)[k] as int) == k
            },
        forall|a: int, b: int|
            0 <= a < b < steps_spec(v, level, n).len() ==> #[trigger] steps_spec(v, level, n)[a]
                < #[trigger] steps_spec(v, level, n)[b],
        forall|q: int|
            0 <= q < n && on_level(v[q], level) ==> {
                &&& #[trigger] step_index(v, level, q) < steps_spec(v, level, n).len()
                &&& steps_spec(v, level, n)[step_index(v, level, q)] == q
            },
        steps_spec(v, level, n).len() <= n,
    decreases n,
{
    if n > 0 {
        lemma_steps(v, level, n - 1);
        lemma_steps_prefix(v, level, n - 1, n);
        let s = steps_spec(v, level, n - 1);
        let t = steps_spec(v, level, n);
        if on_level(v[n - 1], level) {
            assert(t == s.push((n - 1) as usize));
        } else {
            assert(t == s);
        }
        assert forall|k: int| 0 <= k < t.len() implies {
            &&& 0 <= #[trigger] t[k] < n
            &&& on_level(v[t[k] as int], level)
            &&& step_index(v, level, t[k] as int) == k
        } by {
            if k < s.len() {
                assert(t[k] == s[k]);
            }
        }
        assert forall|a: int, b: int| 0 <= a < b < t.len() implies #[trigger] t[a] < #[trigger] t[b] by {
            assert(t[a] == s[a]);
            if b < s.len() {
                assert(t[b] == s[b]);
            }
        }
    }
}

proof fn lemma_steps_prefix(v: Seq<SpaceLevel>, level: SpaceLevel, m: int, n: int)
    requires
        0 <= m <= n,
    ensures
        steps_spec(v, level, m).len() <= steps_spec(v, level, n).len(),
        forall|k: int|
            0 <= k < steps_spec(v, level, m).len() ==> #[trigger] steps_spec(v, level, n)[k]
                == steps_spec(v, level, m)[k],
    decreases n - m,
{
    if m < n {
        lemma_steps_prefix(v, level, m, n - 1);
    }
}

/// Modular facts behind the rotation: the step `j` lands `u` steps further, and back.
proof fn lemma_rotate_index(j: int, u: int, len: int)
    requires
        0 <= j < len,
        0 <= u < len,
    ensures
        0 <= (j + u) % len < len,
        ((j + u) % len - u) % len == j,
        forall|c: int| 0 <= c < len && #[trigger] ((c - u) % len) == j ==> c == (j + u) % len,
{
    if j + u < len {
        vstd::arithmetic::div_mod::lemma_small_mod((j + u) as nat, len as nat);
        vstd::arithmetic::div_mod::lemma_small_mod(j as nat, len as nat);
    } else {
        vstd::arithmetic::div_mod::lemma_mod_sub_multiples_vanish(j + u, len);
        vstd::arithmetic::div_mod::lemma_small_mod((j + u - len) as nat, len as nat);
        vstd::arithmetic::div_mod::lemma_mod_sub_multiples_vanish(j, len);
        vstd::arithmetic::div_mod::lemma_small_mod(j as nat, len as nat);
    }
    assert forall|c: int| 0 <= c < len && #[trigger] ((c - u) % len) == j implies c == (j + u)
        % len by {
        if c >= u {
            vstd::arithmetic::div_mod::lemma_small_mod((c - u) as nat, len as nat);
        } else {
            vstd::arithmetic::div_mod::lemma_mod_add_multiples_vanish(c - u, len);
            vstd::arithmetic::div_mod::lemma_small_mod((c - u + len) as nat, len as nat);
        }
    }
}

fn position(steps: &Vec<usize>, pc: usize) -> (r: Option<usize>)
    ensures
        match r {
            Some(j) => j < steps@.len() && steps@[j as int] == pc && forall|i: int|
                0 <= i < j ==> steps@[i] != pc,
            None => forall|i: int| 0 <= i < steps@.len() ==> steps@[i] != pc,
        },
{
    let mut i: usize = 0;
    while i < steps.len()
        invariant
            i <= steps@.len(),
            forall|k: int| 0 <= k < i ==> steps@[k] != pc,
        decreases steps@.len() - i,
    {
        if steps[i] == pc {
            return Some(i);
        }
        i = i + 1;
    }
    None
}

impl PitchClassSpace {
    /// The steps that are on the given level, in increasing order.
    pub fn get_steps_on_level(&self, level: SpaceLevel) -> (steps: Vec<usize>)
        ensures
            steps@ == steps_of(self.highest_levels@, level),
    {
        let mut steps: Vec<usize> = Vec::new();
        let mut i: usize = 0;
        while i < 12
            invariant
                i <= 12,
                steps@ == steps_spec(self.highest_levels@, level, i as int),
            decreases 12 - i,
        {
            if level.to_int() <= self.highest_levels[i].to_int() {
                steps.push(i);
            }
            i = i + 1;
        }
        steps
    }

    /// Rotate all the pitch classes on `level` by `units` steps along that level.
    /// Everything below the level stays where it is.
    pub fn rotate_on_level(&mut self, level: SpaceLevel, units: isize)
        requires
            steps_of(old(self).highest_levels@, level).len() > 0,
        ensures
            final(self).highest_levels@ == rotate_spec(
                old(self).highest_levels@,
                level,
                units as int,
            ),
    {
        let ghost v = self.highest_levels@;
        let old_levels = self.highest_levels;
        let mut next = self.highest_levels;
        let steps = self.get_steps_on_level(level);
        let len = steps.len();
        let ghost l = len as int;
        proof {
            lemma_steps(v, level, 12);
        }
        let mut units_left = units;
        while units_left < 0
            invariant
                units as int <= units_left,
                (units_left as int) % l == (units as int) % l,
                0 < l <= 12,
                len as int == l,
            decreases 12 - units_left as int,
        {
            proof {
                vstd::arithmetic::div_mod::lemma_mod_add_multiples_vanish(units_left as int, l);
            }
            units_left = units_left + len as isize;
        }
        let u = (units_left as usize) % len;
        assert(u as int == (units as int) % l);
        proof {
            lemma_steps(v, level, 12);
        }
        let mut pc: usize = 0;
        while pc < 12
            invariant
                0 <= pc <= 12,
                v == old_levels@,
                v.len() == 12,
                steps@ == steps_of(v, level),
                l == steps@.len(),
                0 < l <= 12,
                len == l,
                0 <= u < l,
                partial_rotation(v, level, u as int, pc as int, next@),
            decreases 12 - pc,
        {
            match position(&steps, pc) {
                Some(j) => {
                    let t = steps[(j + u) % len];
                    proof {
                        lemma_steps(v, level, 12);
                        assert(steps@[j as int] == pc);
                        assert(on_level(v[pc as int], level));
                        assert(step_index(v, level, pc as int) == j);
                        lemma_rotation_step_on(v, level, u as int, pc as int, next@);
                    }
                    next[t] = old_levels[pc];
                },
                None => {
                    proof {
                        lemma_rotation_step_off(v, level, u as int, pc as int, next@);
                    }
                    next[pc] = old_levels[pc];
                },
            }
            pc = pc + 1;
        }
        proof {
            lemma_rotation_done(v, level, units as int, u as int, next@);
        }
        self.highest_levels = next;
    }
}

/// Where the highest level that lands on pitch class `q` comes from.
spec fn rotation_source(v: Seq<SpaceLevel>, level: SpaceLevel, u: int, q: int) -> int {
    let len = steps_of(v, level).len() as int;
    steps_of(v, level)[(step_index(v, level, q) - u) % len] as int
}

/// The rotation after the pitch classes below `pc` have been moved.
spec fn partial_rotation(
    v: Seq<SpaceLevel>,
    level: SpaceLevel,
    u: int,
    pc: int,
    next: Seq<SpaceLevel>,
) -> bool {
    &&& next.len() == 12
    &&& forall|q: int|
        0 <= q < 12 ==> #[trigger] next[q] == (if on_level(v[q], level) && rotation_source(
            v,
            level,
            u,
            q,
        ) < pc {
            v[rotation_source(v, level, u, q)]
        } else {
            v[q]
        })
}

proof fn lemma_rotation_source_bound(v: Seq<SpaceLevel>, level: SpaceLevel, u: int, q: int)
    requires
        v.len() == 12,
        steps_of(v, level).len() > 0,
        0 <= q < 12,
        on_level(v[q], level),
    ensures
        0 <= rotation_source(v, level, u, q) < 12,
{
    lemma_steps(v, level, 12);
    let len = steps_of(v, level).len() as int;
    vstd::arithmetic::div_mod::lemma_mod_bound(step_index(v, level, q) - u, len);
}

proof fn lemma_rotation_step_on(
    v: Seq<SpaceLevel>,
    level: SpaceLevel,
    u: int,
    pc: int,
    next: Seq<SpaceLevel>,
)
    requires
        v.len() == 12,
        0 <= pc < 12,
        0 <= u < steps_of(v, level).len(),
        on_level(v[pc], level),
        partial_rotation(v, level, u, pc, next),
    ensures
        ({
            let len = steps_of(v, level).len() as int;
            let t = steps_of(v, level)[(step_index(v, level, pc) + u) % len] as int;
            &&& 0 <= (step_index(v, level, pc) + u) % len < len
            &&& 0 <= t < 12
            &&& partial_rotation(v, level, u, pc + 1, next.update(t, v[pc]))
        }),
{
    lemma_steps(v, level, 12);
    let steps = steps_of(v, level);
    let len = steps.len() as int;
    let j = step_index(v, level, pc);
    lemma_rotate_index(j, u, len);
    let t = steps[(j + u) % len] as int;
    assert(step_index(v, level, t) == (j + u) % len);
    assert(rotation_source(v, level, u, t) == pc);
    let n2 = next.update(t, v[pc]);
    assert forall|q: int| 0 <= q < 12 implies #[trigger] n2[q] == (if on_level(v[q], level)
        && rotation_source(v, level, u, q) < pc + 1 {
        v[rotation_source(v, level, u, q)]
    } else {
        v[q]
    }) by {
        if q != t {
            assert(n2[q] == next[q]);
            if on_level(v[q], level) {
                lemma_rotation_source_bound(v, level, u, q);
                if rotation_source(v, level, u, q) == pc {
                    assert((step_index(v, level, q) - u) % len == j);
                }
            }
        }
    }
}

proof fn lemma_rotation_step_off(
    v: Seq<SpaceLevel>,
    level: SpaceLevel,
    u: int,
    pc: int,
    next: Seq<SpaceLevel>,
)
    requires
        v.len() == 12,
        0 <= pc < 12,
        0 <= u < steps_of(v, level).len(),
        forall|i: int| 0 <= i < steps_of(v, level).len() ==> steps_of(v, level)[i] != pc,
        partial_rotation(v, level, u, pc, next),
    ensures
        !on_level(v[pc], level),
        partial_rotation(v, level, u, pc + 1, next.update(pc, v[pc])),
{
    lemma_steps(v, level, 12);
    if on_level(v[pc], level) {
        assert(steps_of(v, level)[step_index(v, level, pc)] == pc);
    }
    let n2 = next.update(pc, v[pc]);
    assert forall|q: int| 0 <= q < 12 implies #[trigger] n2[q] == (if on_level(v[q], level)
        && rotation_source(v, level, u, q) < pc + 1 {
        v[rotation_source(v, level, u, q)]
    } else {
        v[q]
    }) by {
        if on_level(v[q], level) {
            lemma_rotation_source_bound(v, level, u, q);
            let len = steps_of(v, level).len() as int;
            vstd::arithmetic::div_mod::lemma_mod_bound(step_index(v, level, q) - u, len);
        }
        if q == pc {
            assert(n2[q] == v[q]);
        } else {
            assert(n2[q] == next[q]);
        }
    }
}

proof fn lemma_rotation_done(
    v: Seq<SpaceLevel>,
    level: SpaceLevel,
    units: int,
    u: int,
    next: Seq<SpaceLevel>,
)
    requires
        v.len() == 12,
        steps_of(v, level).len() > 0,
        u == units % (steps_of(v, level).len() as int),
        partial_rotation(v, level, u, 12, next),
    ensures
        next == rotate_spec(v, level, units),
{
    assert forall|q: int| 0 <= q < 12 implies #[trigger] next[q] == rotate_spec(v, level, units)[q] by {
        if on_level(v[q], level) {
            lemma_rotation_source_bound(v, level, u, q);
        }
    }
    assert(next =~= rotate_spec(v, level, units));
}


/// `k` successive rotations by `units` on `level`.
pub open spec fn rotate_n(v: Seq<SpaceLevel>, level: SpaceLevel, units: int, k: nat) -> Seq<SpaceLevel>
    decreases k,
{
    if k == 0 {
        v
    } else {
        rotate_spec(rotate_n(v, level, units, (k - 1) as nat), level, units)
    }
}

/// The first position at or after `i` that holds `x`, or 12 if there is none.
pub open spec fn first_index_of(v: Seq<SpaceLevel>, x: SpaceLevel, i: int) -> int
    decreases 12 - i,
{
    if i >= 12 {
        12
    } else if v[i] == x {
        i
    } else {
        first_index_of(v, x, i + 1)
    }
}

/// The root: the pitch class on the octave level.
pub open spec fn root_of(v: Seq<SpaceLevel>) -> int {
    first_index_of(v, SpaceLevel::Octave, 0)
}

/// The fifth: the pitch class whose highest level is the fifth level.
pub open spec fn fifth_of(v: Seq<SpaceLevel>) -> int {
    first_index_of(v, SpaceLevel::Fifth, 0)
}

pub open spec fn has_root(v: Seq<SpaceLevel>) -> bool {
    root_of(v) < 12
}

pub open spec fn has_fifth(v: Seq<SpaceLevel>) -> bool {
    fifth_of(v) < 12
}

/// Two spaces lie in the same region: their diatonic steps agree.
pub open spec fn same_region(v: Seq<SpaceLevel>, w: Seq<SpaceLevel>) -> bool {
    steps_of(v, SpaceLevel::Diatonic) == steps_of(w, SpaceLevel::Diatonic)
}

/// The least number `k >= i` of rotations by a fifth (7 chromatic steps) that brings `v` into the
/// region of `w`; 13 when none up to 12 does.
pub open spec fn first_region_match(v: Seq<SpaceLevel>, w: Seq<SpaceLevel>, i: nat) -> nat
    decreases 13 - i,
{
    if i > 12 {
        13
    } else if same_region(rotate_n(v, SpaceLevel::Chromatic, 7, i), w) {
        i
    } else {
        first_region_match(v, w, i + 1)
    }
}

/// Some number of rotations by a fifth, at most 12, reaches the region of `w`.
pub open spec fn region_reachable(v: Seq<SpaceLevel>, w: Seq<SpaceLevel>) -> bool {
    first_region_match(v, w, 0) <= 12
}

/// The regional distance: the fewest fifths between the two regions, in either direction.
pub open spec fn regional_distance_spec(v: Seq<SpaceLevel>, w: Seq<SpaceLevel>) -> int {
    let k = first_region_match(v, w, 0) as int;
    if k <= 12 - k {
        k
    } else {
        12 - k
    }
}

/// The search from `i` stops at a rotation in the region of `w`, passing only rotations that
/// are not.
proof fn lemma_first_region_match(v: Seq<SpaceLevel>, w: Seq<SpaceLevel>, i: nat)
    ensures
        i <= 12 ==> i <= first_region_match(v, w, i),
        first_region_match(v, w, i) <= 12 ==> same_region(
            rotate_n(v, SpaceLevel::Chromatic, 7, first_region_match(v, w, i)),
            w,
        ),
        forall|j: nat|
            i <= j < first_region_match(v, w, i) && j <= 12 ==> !same_region(
                #[trigger] rotate_n(v, SpaceLevel::Chromatic, 7, j),
                w,
            ),
    decreases 13 - i,
{
    if i <= 12 && !same_region(rotate_n(v, SpaceLevel::Chromatic, 7, i), w) {
        lemma_first_region_match(v, w, i + 1);
    }
}

/// The regional distance moves the space by fifths into the region of the other space, with
/// as few rotations as any that get there, and it is at most 6: the fewer of the fifths up and
/// the fifths down.
pub proof fn lemma_regional_distance_result(v: Seq<SpaceLevel>, w: Seq<SpaceLevel>)
    requires
        region_reachable(v, w),
    ensures
        same_region(rotate_n(v, SpaceLevel::Chromatic, 7, first_region_match(v, w, 0)), w),
        forall|j: nat|
            j < first_region_match(v, w, 0) ==> !same_region(
                #[trigger] rotate_n(v, SpaceLevel::Chromatic, 7, j),
                w,
            ),
        0 <= regional_distance_spec(v, w) <= 6,
{
    lemma_first_region_match(v, w, 0);
}

/// The least number `m >= i` of diatonic rotations by a third-of-the-circle (4 steps) that puts
/// the root of `v` on `target`; 8 when none up to 7 does.
pub open spec fn first_root_match(v: Seq<SpaceLevel>, target: int, i: nat) -> nat
    decreases 8 - i,
{
    if i > 7 {
        8
    } else if root_of(rotate_n(v, SpaceLevel::Diatonic, 4, i)) == target {
        i
    } else {
        first_root_match(v, target, i + 1)
    }
}

/// Whether the chord distance first has to move into the region of `w`: the root or the fifth
/// of `v` is outside the diatonic collection of `w`.
pub open spec fn needs_region_change(v: Seq<SpaceLevel>, w: Seq<SpaceLevel>) -> bool {
    !steps_of(w, SpaceLevel::Diatonic).contains(root_of(v) as usize) || !steps_of(
        w,
        SpaceLevel::Diatonic,
    ).contains(fifth_of(v) as usize)
}

/// The space from which the chord distance rotates along the diatonic circle.
pub open spec fn chord_start(v: Seq<SpaceLevel>, w: Seq<SpaceLevel>) -> Seq<SpaceLevel> {
    if needs_region_change(v, w) {
        rotate_n(v, SpaceLevel::Chromatic, 7, first_region_match(v, w, 0))
    } else {
        v
    }
}

/// Everything the chord distance from `v` to `w` needs: roots, a fifth, a reachable region, and
/// a reachable root along the diatonic circle.
pub open spec fn chord_distance_defined(v: Seq<SpaceLevel>, w: Seq<SpaceLevel>) -> bool {
    &&& has_root(v)
    &&& has_fifth(v)
    &&& has_root(w)
    &&& (needs_region_change(v, w) ==> region_reachable(v, w))
    &&& first_root_match(chord_start(v, w), root_of(w), 0) <= 7
}

/// The chord distance $j$: regional moves needed, plus the fewest diatonic-circle moves.
pub open spec fn chord_distance_spec(v: Seq<SpaceLevel>, w: Seq<SpaceLevel>) -> int {
    let rd = if needs_region_change(v, w) {
        regional_distance_spec(v, w)
    } else {
        0
    };
    let m = first_root_match(chord_start(v, w), root_of(w), 0) as int;
    rd + if m <= 7 - m {
        m
    } else {
        7 - m
    }
}

/// The space reached by the chord distance computation.
pub open spec fn chord_distance_result(v: Seq<SpaceLevel>, w: Seq<SpaceLevel>) -> Seq<SpaceLevel> {
    rotate_n(
        chord_start(v, w),
        SpaceLevel::Diatonic,
        4,
        first_root_match(chord_start(v, w), root_of(w), 0),
    )
}

/// The number of new pitch classes $k$ over the first `n`: how far each pitch class rises.
pub open spec fn new_pcs_upto(v: Seq<SpaceLevel>, w: Seq<SpaceLevel>, n: int) -> int
    decreases n,
{
    if n <= 0 {
        0
    } else {
        let d = lvl(v[n - 1]) - lvl(w[n - 1]);
        new_pcs_upto(v, w, n - 1) + if d > 0 {
            d
        } else {
            0
        }
    }
}

pub open spec fn new_pcs_spec(v: Seq<SpaceLevel>, w: Seq<SpaceLevel>) -> int {
    new_pcs_upto(v, w, 12)
}

/// Everything the total distance from `v` to `w` needs.
pub open spec fn distance_defined(v: Seq<SpaceLevel>, w: Seq<SpaceLevel>) -> bool {
    region_reachable(v, w) && chord_distance_defined(v, w)
}

/// Lerdahl's chord distance d(v -> w) = i + j + k.
pub open spec fn total_distance_spec(v: Seq<SpaceLevel>, w: Seq<SpaceLevel>) -> int {
    regional_distance_spec(v, w) + chord_distance_spec(v, w) + new_pcs_spec(v, w)
}

/// The pitch classes whose highest level is triadic or fifth, among the first `n`.
pub open spec fn chord_pcs_upto(v: Seq<SpaceLevel>, n: int) -> Seq<usize>
    decreases n,
{
    if n <= 0 {
        Seq::empty()
    } else {
        let s = chord_pcs_upto(v, n - 1);
        if lvl(v[n - 1]) >= 3 && lvl(v[n - 1]) < 5 {
            s.push((n - 1) as usize)
        } else {
            s
        }
    }
}

pub open spec fn c_major_levels() -> Seq<SpaceLevel> {
    seq![A, E, D, E, C, D, E, B, E, D, E, D]
}

pub open spec fn c_minor_levels() -> Seq<SpaceLevel> {
    seq![A, E, D, C, E, D, E, B, D, E, D, E]
}

/// The tonic triad of C harmonic minor: the natural minor with the leading tone B raised in
/// place of B flat.
pub open spec fn c_harmonic_minor_levels() -> Seq<SpaceLevel> {
    seq![A, E, D, C, E, D, E, B, D, E, E, D]
}

proof fn lemma_chromatic_steps(v: Seq<SpaceLevel>, n: int)
    requires
        0 <= n <= v.len(),
    ensures
        steps_spec(v, SpaceLevel::Chromatic, n).len() == n,
    decreases n,
{
    if n > 0 {
        lemma_chromatic_steps(v, n - 1);
    }
}

proof fn lemma_first_index(v: Seq<SpaceLevel>, x: SpaceLevel, i: int)
    requires
        0 <= i <= 12,
        v.len() == 12,
    ensures
        i <= first_index_of(v, x, i) <= 12,
        first_index_of(v, x, i) < 12 ==> v[first_index_of(v, x, i)] == x,
        forall|j: int| i <= j < first_index_of(v, x, i) ==> v[j] != x,
        forall|j: int| i <= j < 12 && v[j] == x ==> first_index_of(v, x, i) < 12,
    decreases 12 - i,
{
    if i < 12 {
        lemma_first_index(v, x, i + 1);
    }
}

/// Two spaces that agree on which of the first `n` pitch classes lie on `level` have the same
/// steps among them.
proof fn lemma_steps_same_pattern(v: Seq<SpaceLevel>, w: Seq<SpaceLevel>, level: SpaceLevel, n: int)
    requires
        forall|q: int| 0 <= q < n ==> on_level(#[trigger] v[q], level) == on_level(w[q], level),
    ensures
        steps_spec(v, level, n) == steps_spec(w, level, n),
    decreases n,
{
    if n > 0 {
        lemma_steps_same_pattern(v, w, level, n - 1);
        assert(on_level(v[n - 1], level) == on_level(w[n - 1], level));
    }
}

/// Going `u` steps down and then `-u` steps down along a cycle of `len` steps comes back.
proof fn lemma_mod_inverse(j: int, u: int, len: int)
    requires
        0 <= j < len,
    ensures
        0 <= (j - (-u) % len) % len < len,
        ((j - (-u) % len) % len - u % len) % len == j,
{
    let a = u % len;
    let b = (-u) % len;
    vstd::arithmetic::div_mod::lemma_fundamental_div_mod(u, len);
    vstd::arithmetic::div_mod::lemma_fundamental_div_mod(-u, len);
    vstd::arithmetic::div_mod::lemma_mod_bound(u, len);
    vstd::arithmetic::div_mod::lemma_mod_bound(-u, len);
    let m = -(u / len) - ((-u) / len);
    assert(a + b == len * m) by (nonlinear_arith)
        requires
            u == len * (u / len) + a,
            -u == len * ((-u) / len) + b,
            m == -(u / len) - ((-u) / len),
    ;
    assert(m == 0 || m == 1) by (nonlinear_arith)
        requires
            a + b == len * m,
            0 <= a < len,
            0 <= b < len,
            len > 0,
    ;
    vstd::arithmetic::div_mod::lemma_mod_bound(j - b, len);
    lemma_rotate_index(j, a, len);
    if m == 0 {
        assert(len * m == 0) by (nonlinear_arith)
            requires
                m == 0,
        ;
        assert(b == 0);
        vstd::arithmetic::div_mod::lemma_small_mod(j as nat, len as nat);
        if a != 0 {
            assert(false);
        }
        assert((j - a) % len == j);
    } else {
        assert(len * m == len) by (nonlinear_arith)
            requires
                m == 1,
        ;
        assert(j - b == j + a - len);
        vstd::arithmetic::div_mod::lemma_mod_sub_multiples_vanish(j + a, len);
        assert((j - b) % len == (j + a) % len);
    }
}

/// A rotation keeps which pitch classes lie on the level, and so the steps of the level.
proof fn lemma_rotate_pattern(v: Seq<SpaceLevel>, level: SpaceLevel, units: int)
    requires
        v.len() == 12,
        steps_of(v, level).len() > 0,
    ensures
        forall|q: int|
            0 <= q < 12 ==> on_level(#[trigger] rotate_spec(v, level, units)[q], level)
                == on_level(v[q], level),
        forall|q: int|
            0 <= q <= 12 ==> #[trigger] steps_spec(rotate_spec(v, level, units), level, q)
                == steps_spec(v, level, q),
{
    lemma_steps(v, level, 12);
    let steps = steps_of(v, level);
    let len = steps.len() as int;
    let w = rotate_spec(v, level, units);
    assert forall|q: int| 0 <= q < 12 implies on_level(#[trigger] w[q], level) == on_level(
        v[q],
        level,
    ) by {
        if on_level(v[q], level) {
            let k = (step_index(v, level, q) - units % len) % len;
            vstd::arithmetic::div_mod::lemma_mod_bound(step_index(v, level, q) - units % len, len);
            assert(on_level(v[steps[k] as int], level));
        }
    }
    assert forall|q: int| 0 <= q <= 12 implies #[trigger] steps_spec(w, level, q) == steps_spec(
        v,
        level,
        q,
    ) by {
        lemma_steps_same_pattern(w, v, level, q);
    }
}

/// Rotating back by as many units gives the space back.
proof fn lemma_rotate_back(v: Seq<SpaceLevel>, level: SpaceLevel, units: int)
    requires
        v.len() == 12,
        steps_of(v, level).len() > 0,
    ensures
        rotate_spec(rotate_spec(v, level, units), level, -units) == v,
{
    lemma_steps(v, level, 12);
    lemma_rotate_pattern(v, level, units);
    let steps = steps_of(v, level);
    let len = steps.len() as int;
    let w = rotate_spec(v, level, units);
    assert(steps_of(w, level) == steps);
    let z = rotate_spec(w, level, -units);
    assert forall|q: int| 0 <= q < 12 implies #[trigger] z[q] == v[q] by {
        assert(on_level(w[q], level) == on_level(v[q], level));
        if on_level(v[q], level) {
            let j = step_index(v, level, q);
            assert(step_index(w, level, q) == j) by {
                assert(steps_spec(w, level, q) == steps_spec(v, level, q));
            }
            lemma_mod_inverse(j, units, len);
            let k = (j - (-units) % len) % len;
            let t = steps[k] as int;
            assert(step_index(v, level, t) == k);
            assert(step_index(w, level, t) == k) by {
                assert(steps_spec(w, level, t) == steps_spec(v, level, t));
            }
            assert(on_level(w[t], level));
            assert(z[q] == w[t]);
            assert(w[t] == v[steps[j] as int]);
        }
    }
    assert(z =~= v);
}

/// Where the highest level of pitch class `q` comes from in a rotation: a pitch class on the
/// level takes it from the step `units` below along the level; the others keep their own.
pub open spec fn level_source(v: Seq<SpaceLevel>, level: SpaceLevel, units: int, q: int) -> int {
    let steps = steps_of(v, level);
    let len = steps.len() as int;
    if on_level(v[q], level) {
        steps[(step_index(v, level, q) - units % len) % len] as int
    } else {
        q
    }
}

/// Rotating on a level permutes the highest levels: each pitch class takes the level of
/// another, and no two take it from the same one.
pub proof fn lemma_rotate_permutes(v: Seq<SpaceLevel>, level: SpaceLevel, units: int)
    requires
        v.len() == 12,
        steps_of(v, level).len() > 0,
    ensures
        forall|q: int|
            0 <= q < 12 ==> 0 <= #[trigger] level_source(v, level, units, q) < 12 && rotate_spec(
                v,
                level,
                units,
            )[q] == v[level_source(v, level, units, q)],
        forall|a: int, b: int|
            0 <= a < 12 && 0 <= b < 12 && #[trigger] level_source(v, level, units, a)
                == #[trigger] level_source(v, level, units, b) ==> a == b,
{
    lemma_steps(v, level, 12);
    let steps = steps_of(v, level);
    let len = steps.len() as int;
    let u = units % len;
    vstd::arithmetic::div_mod::lemma_mod_bound(units, len);
    assert forall|q: int| 0 <= q < 12 implies 0 <= #[trigger] level_source(v, level, units, q) < 12
        && rotate_spec(v, level, units)[q] == v[level_source(v, level, units, q)] by {
        if on_level(v[q], level) {
            vstd::arithmetic::div_mod::lemma_mod_bound(step_index(v, level, q) - u, len);
        }
    }
    assert forall|a: int, b: int|
        0 <= a < 12 && 0 <= b < 12 && #[trigger] level_source(v, level, units, a)
            == #[trigger] level_source(v, level, units, b) implies a == b by {
        let fa = level_source(v, level, units, a);
        let fb = level_source(v, level, units, b);
        if on_level(v[a], level) && on_level(v[b], level) {
            let ja = step_index(v, level, a);
            let jb = step_index(v, level, b);
            let ka = (ja - u) % len;
            let kb = (jb - u) % len;
            vstd::arithmetic::div_mod::lemma_mod_bound(ja - u, len);
            vstd::arithmetic::div_mod::lemma_mod_bound(jb - u, len);
            if ka != kb {
                if ka < kb {
                    assert(steps[ka] < steps[kb]);
                } else {
                    assert(steps[kb] < steps[ka]);
                }
            }
            assert(ka == kb);
            lemma_rotate_index(ka, u, len);
            assert(ja == (ka + u) % len);
            assert(jb == (ka + u) % len);
            assert(steps[ja] == a);
            assert(steps[jb] == b);
        } else if on_level(v[a], level) {
            let ka = (step_index(v, level, a) - u) % len;
            vstd::arithmetic::div_mod::lemma_mod_bound(step_index(v, level, a) - u, len);
            assert(on_level(v[steps[ka] as int], level));
        } else if on_level(v[b], level) {
            let kb = (step_index(v, level, b) - u) % len;
            vstd::arithmetic::div_mod::lemma_mod_bound(step_index(v, level, b) - u, len);
            assert(on_level(v[steps[kb] as int], level));
        }
    }
}

/// Rotating on a level keeps which pitch classes lie on it; rotating back by as many units
/// gives the space back; and rotating by a full turn more, as many units as the level has
/// steps, rotates the same.
pub proof fn lemma_rotate_inverse_period(v: Seq<SpaceLevel>, level: SpaceLevel, units: int)
    requires
        v.len() == 12,
        steps_of(v, level).len() > 0,
    ensures
        steps_of(rotate_spec(v, level, units), level) == steps_of(v, level),
        rotate_spec(rotate_spec(v, level, units), level, -units) == v,
        rotate_spec(v, level, units + steps_of(v, level).len()) == rotate_spec(v, level, units),
{
    lemma_rotate_pattern(v, level, units);
    lemma_rotate_back(v, level, units);
    let len = steps_of(v, level).len() as int;
    vstd::arithmetic::div_mod::lemma_mod_add_multiples_vanish(units, len);
    assert(rotate_spec(v, level, units + len) =~= rotate_spec(v, level, units));
}

/// Rotating on a level keeps every highest level that lies on it.
proof fn lemma_rotate_keeps(v: Seq<SpaceLevel>, level: SpaceLevel, units: int, q: int)
    requires
        v.len() == 12,
        0 <= q < 12,
        on_level(v[q], level),
    ensures
        steps_of(v, level).len() > 0,
        exists|t: int| 0 <= t < 12 && #[trigger] rotate_spec(v, level, units)[t] == v[q],
{
    lemma_steps(v, level, 12);
    let steps = steps_of(v, level);
    let len = steps.len() as int;
    let j = step_index(v, level, q);
    let u = units % len;
    vstd::arithmetic::div_mod::lemma_mod_bound(units, len);
    lemma_rotate_index(j, u, len);
    let t = steps[(j + u) % len] as int;
    assert(step_index(v, level, t) == (j + u) % len);
    assert(rotate_spec(v, level, units)[t] == v[q]);
}

proof fn lemma_rotate_keeps_root(v: Seq<SpaceLevel>, level: SpaceLevel, units: int)
    requires
        v.len() == 12,
        has_root(v),
    ensures
        steps_of(v, level).len() > 0,
        has_root(rotate_spec(v, level, units)),
{
    lemma_first_index(v, SpaceLevel::Octave, 0);
    lemma_rotate_keeps(v, level, units, root_of(v));
    let w = rotate_spec(v, level, units);
    let t = choose|t: int| 0 <= t < 12 && #[trigger] w[t] == v[root_of(v)];
    lemma_first_index(w, SpaceLevel::Octave, 0);
}

proof fn lemma_region_match_step(v: Seq<SpaceLevel>, w: Seq<SpaceLevel>, i: nat)
    requires
        i <= 12,
        !same_region(rotate_n(v, SpaceLevel::Chromatic, 7, i), w),
    ensures
        first_region_match(v, w, i) == first_region_match(v, w, i + 1),
{
}

proof fn lemma_root_match_step(v: Seq<SpaceLevel>, target: int, i: nat)
    requires
        i <= 7,
        root_of(rotate_n(v, SpaceLevel::Diatonic, 4, i)) != target,
    ensures
        first_root_match(v, target, i) == first_root_match(v, target, i + 1),
{
}

fn vec_eq(a: &Vec<usize>, b: &Vec<usize>) -> (r: bool)
    ensures
        r == (a@ == b@),
{
    if a.len() != b.len() {
        return false;
    }
    let mut i: usize = 0;
    while i < a.len()
        invariant
            a@.len() == b@.len(),
            i <= a@.len(),
            forall|k: int| 0 <= k < i ==> a@[k] == b@[k],
        decreases a@.len() - i,
    {
        if a[i] != b[i] {
            return false;
        }
        i = i + 1;
    }
    assert(a@ =~= b@);
    true
}

fn vec_contains(a: &Vec<usize>, x: usize) -> (r: bool)
    ensures
        r == a@.contains(x),
{
    let mut i: usize = 0;
    while i < a.len()
        invariant
            i <= a@.len(),
            forall|k: int| 0 <= k < i ==> a@[k] != x,
        decreases a@.len() - i,
    {
        if a[i] == x {
            return true;
        }
        i = i + 1;
    }
    false
}

impl PitchClassSpace {
    /// I/C: the tonic triad of C major.
    pub fn c_maj() -> (s: Self)
        ensures
            s.highest_levels@ == c_major_levels(),
    {
        let s = Self { highest_levels: [A, E, D, E, C, D, E, B, E, D, E, D] };
        assert(s.highest_levels@ =~= c_major_levels());
        s
    }

    /// i/c: the tonic triad of C natural minor.
    pub fn c_nat_min() -> (s: Self)
        ensures
            s.highest_levels@ == c_minor_levels(),
    {
        let s = Self { highest_levels: [A, E, D, C, E, D, E, B, D, E, D, E] };
        assert(s.highest_levels@ =~= c_minor_levels());
        s
    }

    /// i/c in C harmonic minor, the space used for dominant chords in a minor region: the
    /// natural minor tonic with the raised leading tone B on the diatonic level and B flat
    /// only chromatic.
    pub fn c_harmonic_min() -> (s: Self)
        ensures
            s.highest_levels@ == c_harmonic_minor_levels(),
    {
        let s = Self { highest_levels: [A, E, D, C, E, D, E, B, D, E, E, D] };
        assert(s.highest_levels@ =~= c_harmonic_minor_levels());
        s
    }

    /// The root: the pitch class on the octave level.
    pub fn get_root(&self) -> (r: usize)
        requires
            has_root(self.highest_levels@),
        ensures
            r == root_of(self.highest_levels@),
    {
        self.first_with(SpaceLevel::Octave)
    }

    /// The fifth: the pitch class whose highest level is the fifth level.
    pub fn get_fifth(&self) -> (r: usize)
        requires
            has_fifth(self.highest_levels@),
        ensures
            r == fifth_of(self.highest_levels@),
    {
        self.first_with(SpaceLevel::Fifth)
    }

    fn first_with(&self, x: SpaceLevel) -> (r: usize)
        requires
            first_index_of(self.highest_levels@, x, 0) < 12,
        ensures
            r == first_index_of(self.highest_levels@, x, 0),
    {
        let ghost v = self.highest_levels@;
        let mut i: usize = 0;
        while i < 12
            invariant
                i <= 12,
                v == self.highest_levels@,
                first_index_of(v, x, 0) == first_index_of(v, x, i as int),
                first_index_of(v, x, 0) < 12,
            decreases 12 - i,
        {
            if self.highest_levels[i] == x {
                return i;
            }
            i = i + 1;
        }
        i
    }

    /// The pitch classes of the chord other than the root: those whose highest level is
    /// triadic or fifth.
    pub fn get_non_root_chord_pcs(&self) -> (pcs: Vec<usize>)
        ensures
            pcs@ == chord_pcs_upto(self.highest_levels@, 12),
    {
        let mut pcs: Vec<usize> = Vec::new();
        let mut i: usize = 0;
        while i < 12
            invariant
                i <= 12,
                pcs@ == chord_pcs_upto(self.highest_levels@, i as int),
            decreases 12 - i,
        {
            let l = self.highest_levels[i].to_int();
            if l >= 3 && l < 5 {
                pcs.push(i);
            }
            i = i + 1;
        }
        pcs
    }

    /// The regional distance $i$, and the space reached by rotating `self` into the region of
    /// `other` by fifths.
    pub fn regional_distance_with_result(&self, other: &Self) -> (r: (usize, PitchClassSpace))
        requires
            region_reachable(self.highest_levels@, other.highest_levels@),
        ensures
            r.0 == regional_distance_spec(self.highest_levels@, other.highest_levels@),
            r.1.highest_levels@ == rotate_n(
                self.highest_levels@,
                SpaceLevel::Chromatic,
                7,
                first_region_match(self.highest_levels@, other.highest_levels@, 0),
            ),
    {
        let ghost v = self.highest_levels@;
        let ghost w = other.highest_levels@;
        let mut distance: usize = 0;
        let mut current_space = *self;
        let other_steps = other.get_steps_on_level(SpaceLevel::Diatonic);
        loop
            invariant
                v == self.highest_levels@,
                w == other.highest_levels@,
                distance <= 12,
                current_space.highest_levels@ == rotate_n(
                    v,
                    SpaceLevel::Chromatic,
                    7,
                    distance as nat,
                ),
                first_region_match(v, w, 0) == first_region_match(v, w, distance as nat),
                first_region_match(v, w, 0) <= 12,
                other_steps@ == steps_of(w, SpaceLevel::Diatonic),
            ensures
                distance == first_region_match(v, w, 0),
                current_space.highest_levels@ == rotate_n(
                    v,
                    SpaceLevel::Chromatic,
                    7,
                    distance as nat,
                ),
            decreases 12 - distance,
        {
            let steps = current_space.get_steps_on_level(SpaceLevel::Diatonic);
            if vec_eq(&steps, &other_steps) {
                break;
            }
            proof {
                lemma_region_match_step(v, w, distance as nat);
                lemma_chromatic_steps(current_space.highest_levels@, 12);
            }
            current_space.rotate_on_level(SpaceLevel::Chromatic, 7);
            distance = distance + 1;
            assert(distance <= 12);
        }
        let d = if distance <= 12 - distance {
            distance
        } else {
            12 - distance
        };
        (d, current_space)
    }

    /// This calculates $i$.
    pub fn regional_distance(&self, other: &Self) -> (d: usize)
        requires
            region_reachable(self.highest_levels@, other.highest_levels@),
        ensures
            d == regional_distance_spec(self.highest_levels@, other.highest_levels@),
            d <= 6,
    {
        self.regional_distance_with_result(other).0
    }

    /// The chord distance $j$, and the space reached: first move into the region of `other`
    /// when the root or fifth of `self` lies outside it, then move along the diatonic circle of
    /// fifths until the roots agree.
    pub fn chord_distance_with_result(&self, other: &Self) -> (r: (usize, PitchClassSpace))
        requires
            chord_distance_defined(self.highest_levels@, other.highest_levels@),
        ensures
            r.0 == chord_distance_spec(self.highest_levels@, other.highest_levels@),
            r.1.highest_levels@ == chord_distance_result(
                self.highest_levels@,
                other.highest_levels@,
            ),
    {
        let ghost v = self.highest_levels@;
        let ghost w = other.highest_levels@;
        let mut current_pcs = *self;
        let other_region = other.get_steps_on_level(SpaceLevel::Diatonic);
        let regional_dist = if !vec_contains(&other_region, self.get_root()) || !vec_contains(
            &other_region,
            self.get_fifth(),
        ) {
            let (regional_distance, pcs) = self.regional_distance_with_result(other);
            current_pcs = pcs;
            regional_distance
        } else {
            0
        };
        let ghost start = current_pcs.highest_levels@;
        assert(start == chord_start(v, w));
        let target = other.get_root();
        let mut chord_dist: usize = 0;
        let mut current_space = current_pcs;
        proof {
            if needs_region_change(v, w) {
                lemma_rotate_n_keeps_root(v, SpaceLevel::Chromatic, 7, first_region_match(v, w, 0));
            }
        }
        loop
            invariant
                v == self.highest_levels@,
                w == other.highest_levels@,
                chord_dist <= 7,
                current_space.highest_levels@ == rotate_n(
                    start,
                    SpaceLevel::Diatonic,
                    4,
                    chord_dist as nat,
                ),
                has_root(current_space.highest_levels@),
                first_root_match(start, target as int, 0) == first_root_match(
                    start,
                    target as int,
                    chord_dist as nat,
                ),
                first_root_match(start, target as int, 0) <= 7,
                target == root_of(w),
            ensures
                chord_dist == first_root_match(start, target as int, 0),
                current_space.highest_levels@ == rotate_n(
                    start,
                    SpaceLevel::Diatonic,
                    4,
                    chord_dist as nat,
                ),
            decreases 7 - chord_dist,
        {
            if current_space.get_root() == target {
                break;
            }
            proof {
                lemma_root_match_step(start, target as int, chord_dist as nat);
                lemma_rotate_keeps_root(current_space.highest_levels@, SpaceLevel::Diatonic, 4);
            }
            current_space.rotate_on_level(SpaceLevel::Diatonic, 4);
            chord_dist = chord_dist + 1;
            assert(chord_dist <= 7);
        }
        let cd = if chord_dist <= 7 - chord_dist {
            chord_dist
        } else {
            7 - chord_dist
        };
        (regional_dist + cd, current_space)
    }

    /// This calculates $j$.
    pub fn chord_distance(&self, other: &Self) -> (d: usize)
        requires
            chord_distance_defined(self.highest_levels@, other.highest_levels@),
        ensures
            d == chord_distance_spec(self.highest_levels@, other.highest_levels@),
            d <= 10,
    {
        self.chord_distance_with_result(other).0
    }

    /// This calculates $k$: the sum, over the pitch classes, of how far `self` rises above
    /// `other`.
    pub fn count_new_pcs(&self, other: &Self) -> (k: usize)
        ensures
            k == new_pcs_spec(self.highest_levels@, other.highest_levels@),
            k <= 48,
    {
        let ghost v = self.highest_levels@;
        let ghost w = other.highest_levels@;
        let mut total: usize = 0;
        let mut i: usize = 0;
        while i < 12
            invariant
                i <= 12,
                v == self.highest_levels@,
                w == other.highest_levels@,
                total == new_pcs_upto(v, w, i as int),
                total <= 4 * i,
            decreases 12 - i,
        {
            let d = self.highest_levels[i].difference(other.highest_levels[i]);
            if d > 0 {
                total = total + d as usize;
            }
            i = i + 1;
        }
        total
    }

    /// The chord distance function, d(X->Y) = i + j + k.
    pub fn total_distance(&self, other: &Self) -> (d: usize)
        requires
            distance_defined(self.highest_levels@, other.highest_levels@),
        ensures
            d == total_distance_spec(self.highest_levels@, other.highest_levels@),
            d <= 64,
    {
        let i = self.regional_distance(other);
        let j = self.chord_distance(other);
        let k = self.count_new_pcs(other);
        i + j + k
    }
}

proof fn lemma_rotate_n_keeps_root(v: Seq<SpaceLevel>, level: SpaceLevel, units: int, k: nat)
    requires
        v.len() == 12,
        has_root(v),
    ensures
        has_root(rotate_n(v, level, units, k)),
        rotate_n(v, level, units, k).len() == 12,
    decreases k,
{
    if k > 0 {
        lemma_rotate_n_keeps_root(v, level, units, (k - 1) as nat);
        lemma_rotate_keeps_root(rotate_n(v, level, units, (k - 1) as nat), level, units);
    }
}


/// The position of a Roman numeral among I .. VII (or i .. vii), written in one case.
pub open spec fn roman_index(s: Seq<char>) -> Option<int> {
    if s == "I"@ || s == "i"@ {
        Some(0)
    } else if s == "II"@ || s == "ii"@ {
        Some(1)
    } else if s == "III"@ || s == "iii"@ {
        Some(2)
    } else if s == "IV"@ || s == "iv"@ {
        Some(3)
    } else if s == "V"@ || s == "v"@ {
        Some(4)
    } else if s == "VI"@ || s == "vi"@ {
        Some(5)
    } else if s == "VII"@ || s == "vii"@ {
        Some(6)
    } else {
        None
    }
}

/// A numeral with every trailing "_o" (diminished) removed.
pub open spec fn strip_diminished(s: Seq<char>) -> Seq<char>
    decreases s.len(),
{
    if s.len() >= 2 && s[s.len() - 2] == '_' && s[s.len() - 1] == 'o' {
        strip_diminished(s.take(s.len() - 2))
    } else {
        s
    }
}

/// The semitones of each degree of the major scale.
pub open spec fn major_scale_semitones(i: int) -> int {
    if i == 0 {
        0
    } else if i == 1 {
        2
    } else if i == 2 {
        4
    } else if i == 3 {
        5
    } else if i == 4 {
        7
    } else if i == 5 {
        9
    } else {
        11
    }
}

/// The chromatic offset of a Roman numeral, after removing any "_o" suffixes.
pub open spec fn chromatic_offset_spec(s: Seq<char>) -> Option<int> {
    match roman_index(strip_diminished(s)) {
        Some(i) => Some(major_scale_semitones(i)),
        None => None,
    }
}

/// The diatonic offset (scale degree counted from 0) of a Roman numeral.
pub open spec fn diatonic_offset_spec(s: Seq<char>) -> Option<int> {
    roman_index(strip_diminished(s))
}

/// The chromatic offset of a region: a Roman numeral, possibly behind flats ("b") and sharps
/// ("#"), each of which moves it down or up a semitone.
pub open spec fn regional_offset_spec(s: Seq<char>) -> Option<int>
    decreases s.len(),
{
    if chromatic_offset_spec(s) is Some {
        chromatic_offset_spec(s)
    } else if s.len() > 0 && s[0] == 'b' {
        match regional_offset_spec(s.drop_first()) {
            Some(o) => Some((o + 11) % 12),
            None => None,
        }
    } else if s.len() > 0 && s[0] == '#' {
        match regional_offset_spec(s.drop_first()) {
            Some(o) => Some((o + 1) % 12),
            None => None,
        }
    } else {
        None
    }
}

proof fn lemma_strip_keeps_first(s: Seq<char>)
    requires
        s.len() > 0,
        s[0] != '_',
    ensures
        strip_diminished(s).len() > 0,
        strip_diminished(s)[0] == s[0],
    decreases s.len(),
{
    if s.len() >= 2 && s[s.len() - 2] == '_' && s[s.len() - 1] == 'o' {
        if s.len() == 2 {
            assert(false);
        }
        lemma_strip_keeps_first(s.take(s.len() - 2));
    }
}

/// No Roman numeral begins with a flat or a sharp sign.
proof fn lemma_no_numeral_with_sign(s: Seq<char>, c: char)
    requires
        c == 'b' || c == '#',
    ensures
        chromatic_offset_spec(seq![c] + s) is None,
{
    let t = seq![c] + s;
    lemma_strip_keeps_first(t);
    let u = strip_diminished(t);
    reveal_strlit("I");
    reveal_strlit("i");
    reveal_strlit("II");
    reveal_strlit("ii");
    reveal_strlit("III");
    reveal_strlit("iii");
    reveal_strlit("IV");
    reveal_strlit("iv");
    reveal_strlit("V");
    reveal_strlit("v");
    reveal_strlit("VI");
    reveal_strlit("vi");
    reveal_strlit("VII");
    reveal_strlit("vii");
    assert(u[0] == c);
    assert(u != "I"@ && u != "i"@ && u != "II"@ && u != "ii"@ && u != "III"@ && u != "iii"@);
    assert(u != "IV"@ && u != "iv"@ && u != "V"@ && u != "v"@ && u != "VI"@ && u != "vi"@);
    assert(u != "VII"@ && u != "vii"@);
}

/// Every regional offset is a pitch class, 0 to 11.
pub proof fn lemma_regional_offset_range(s: Seq<char>)
    ensures
        regional_offset_spec(s) matches Some(o) ==> 0 <= o < 12,
    decreases s.len(),
{
    if s.len() > 0 {
        lemma_regional_offset_range(s.drop_first());
    }
}

/// A flat before a region lowers it one semitone and a sharp raises it one semitone, around
/// the octave: the region of `b` + `s` lies a semitone below that of `s`, and that of `#` +
/// `s` a semitone above; where `s` names no region, neither do they.
pub proof fn lemma_flat_sharp_regions(s: Seq<char>)
    ensures
        regional_offset_spec(s) matches Some(o) ==> (regional_offset_spec(seq!['b'] + s) matches Some(
            lower,
        ) && 0 <= lower < 12 && (lower + 1) % 12 == o),
        regional_offset_spec(s) matches Some(o) ==> (regional_offset_spec(seq!['#'] + s) matches Some(
            upper,
        ) && 0 <= upper < 12 && (o + 1) % 12 == upper),
        regional_offset_spec(s) is None ==> regional_offset_spec(seq!['b'] + s) is None
            && regional_offset_spec(seq!['#'] + s) is None,
{
    lemma_no_numeral_with_sign(s, 'b');
    lemma_no_numeral_with_sign(s, '#');
    lemma_regional_offset_range(s);
    lemma_regional_offset_range(seq!['b'] + s);
    lemma_regional_offset_range(seq!['#'] + s);
    assert((seq!['b'] + s).drop_first() =~= s);
    assert((seq!['#'] + s).drop_first() =~= s);
}

/// A lowercase i or v marks a minor numeral.
pub open spec fn is_minor_spec(s: Seq<char>) -> bool {
    exists|i: int| 0 <= i < s.len() && (s[i] == 'i' || s[i] == 'v')
}

/// The space of the chord on scale degree `offset` of C major or C minor. A minor region
/// takes the harmonic minor for its dominant chords: the chord on degree 4 (V), and the chord
/// on degree 6 when it is written in lowercase (vii, vii_o); an uppercase VII is the major
/// chord of the natural minor.
pub open spec fn roman_space_spec(offset: usize, minor_region: bool, lowercase_chord: bool) -> Seq<
    SpaceLevel,
> {
    rotate_spec(
        if minor_region && (offset == 4 || (offset == 6 && lowercase_chord)) {
            c_harmonic_minor_levels()
        } else if minor_region {
            c_minor_levels()
        } else {
            c_major_levels()
        },
        SpaceLevel::Diatonic,
        (offset as isize) as int,
    )
}

/// The number of times `c` occurs in `s`.
pub open spec fn count_char(s: Seq<char>, c: char) -> nat
    decreases s.len(),
{
    if s.len() == 0 {
        0
    } else {
        count_char(s.drop_last(), c) + if s.last() == c {
            1nat
        } else {
            0nat
        }
    }
}

/// What parsing "chord/region" yields: the levels of the space, or the error message. A chord
/// written without a region stands in the major region of pitch class 0.
pub open spec fn parse_space_spec(s: Seq<char>) -> Result<Seq<SpaceLevel>, Seq<char>> {
    if count_char(s, '/') == 1 {
        let p = choose|p: int| 0 <= p < s.len() && s[p] == '/';
        let chord = s.take(p);
        let region = s.skip(p + 1);
        match diatonic_offset_spec(chord) {
            None => Err("Invalid chord Roman numeral: "@ + s),
            Some(c) => match regional_offset_spec(region) {
                None => Err("Invalid region Roman numeral: "@ + s),
                Some(r) => Ok(
                    rotate_spec(
                        roman_space_spec(c as usize, is_minor_spec(region), is_minor_spec(chord)),
                        SpaceLevel::Chromatic,
                        r,
                    ),
                ),
            },
        }
    } else if count_char(s, '/') == 0 {
        match diatonic_offset_spec(s) {
            None => Err("Invalid chord Roman numeral: "@ + s),
            Some(c) => Ok(roman_space_spec(c as usize, false, false)),
        }
    } else {
        Err("Invalid input: "@ + s)
    }
}

fn roman_index_exec(c: &Vec<char>, lo: usize, hi: usize) -> (r: Option<usize>)
    requires
        lo <= hi <= c@.len(),
    ensures
        match roman_index(c@.subrange(lo as int, hi as int)) {
            Some(i) => r == Some(i as usize),
            None => r is None,
        },
{
    if chars_eq_str(c, lo, hi, "I") || chars_eq_str(c, lo, hi, "i") {
        Some(0)
    } else if chars_eq_str(c, lo, hi, "II") || chars_eq_str(c, lo, hi, "ii") {
        Some(1)
    } else if chars_eq_str(c, lo, hi, "III") || chars_eq_str(c, lo, hi, "iii") {
        Some(2)
    } else if chars_eq_str(c, lo, hi, "IV") || chars_eq_str(c, lo, hi, "iv") {
        Some(3)
    } else if chars_eq_str(c, lo, hi, "V") || chars_eq_str(c, lo, hi, "v") {
        Some(4)
    } else if chars_eq_str(c, lo, hi, "VI") || chars_eq_str(c, lo, hi, "vi") {
        Some(5)
    } else if chars_eq_str(c, lo, hi, "VII") || chars_eq_str(c, lo, hi, "vii") {
        Some(6)
    } else {
        None
    }
}

/// The end of `c[lo..hi]` once every trailing "_o" is removed.
fn strip_diminished_exec(c: &Vec<char>, lo: usize, hi: usize) -> (end: usize)
    requires
        lo <= hi <= c@.len(),
    ensures
        lo <= end <= hi,
        c@.subrange(lo as int, end as int) == strip_diminished(c@.subrange(lo as int, hi as int)),
    decreases hi - lo,
{
    let ghost s = c@.subrange(lo as int, hi as int);
    if hi - lo >= 2 && c[hi - 2] == '_' && c[hi - 1] == 'o' {
        assert(s.take(s.len() - 2) =~= c@.subrange(lo as int, hi - 2));
        strip_diminished_exec(c, lo, hi - 2)
    } else {
        hi
    }
}

fn chromatic_offset_exec(c: &Vec<char>, lo: usize, hi: usize) -> (r: Option<usize>)
    requires
        lo <= hi <= c@.len(),
    ensures
        match chromatic_offset_spec(c@.subrange(lo as int, hi as int)) {
            Some(o) => r == Some(o as usize),
            None => r is None,
        },
{
    let end = strip_diminished_exec(c, lo, hi);
    match roman_index_exec(c, lo, end) {
        Some(i) => {
            let semitones: usize = if i == 0 {
                0
            } else if i == 1 {
                2
            } else if i == 2 {
                4
            } else if i == 3 {
                5
            } else if i == 4 {
                7
            } else if i == 5 {
                9
            } else {
                11
            };
            Some(semitones)
        },
        None => None,
    }
}

fn regional_offset_exec(c: &Vec<char>, lo: usize, hi: usize) -> (r: Option<usize>)
    requires
        lo <= hi <= c@.len(),
    ensures
        match regional_offset_spec(c@.subrange(lo as int, hi as int)) {
            Some(o) => r == Some(o as usize) && 0 <= o < 12,
            None => r is None,
        },
    decreases hi - lo,
{
    let ghost s = c@.subrange(lo as int, hi as int);
    if let Some(offset) = chromatic_offset_exec(c, lo, hi) {
        Some(offset)
    } else if lo < hi && c[lo] == 'b' {
        assert(s.drop_first() =~= c@.subrange(lo + 1, hi as int));
        match regional_offset_exec(c, lo + 1, hi) {
            Some(o) => Some((o + 11) % 12),
            None => None,
        }
    } else if lo < hi && c[lo] == '#' {
        assert(s.drop_first() =~= c@.subrange(lo + 1, hi as int));
        match regional_offset_exec(c, lo + 1, hi) {
            Some(o) => Some((o + 1) % 12),
            None => None,
        }
    } else {
        None
    }
}

fn is_minor_exec(c: &Vec<char>, lo: usize, hi: usize) -> (r: bool)
    requires
        lo <= hi <= c@.len(),
    ensures
        r == is_minor_spec(c@.subrange(lo as int, hi as int)),
{
    let ghost s = c@.subrange(lo as int, hi as int);
    let mut i = lo;
    while i < hi
        invariant
            lo <= i <= hi <= c@.len(),
            s == c@.subrange(lo as int, hi as int),
            forall|k: int| 0 <= k < i - lo ==> !(s[k] == 'i' || s[k] == 'v'),
        decreases hi - i,
    {
        if is_roman_numeral(c[i]) && (c[i] == 'i' || c[i] == 'v') {
            assert(s[i - lo] == c@[i as int]);
            return true;
        }
        i = i + 1;
    }
    false
}

/// Whether a character is one of the Roman numeral letters i or v, in either case.
fn is_roman_numeral(c: char) -> (r: bool)
    ensures
        r == (c == 'i' || c == 'v' || c == 'I' || c == 'V'),
{
    c == 'i' || c == 'v' || c == 'I' || c == 'V'
}

/// Returns the chromatic offset of a region given its Roman numeral. For example, "I" gives 0,
/// "II" gives 2, "bIII" gives 3, "#IV" gives 6.
pub fn get_regional_offset_from_roman_numeral(roman_numeral: &str) -> (r: Option<usize>)
    ensures
        match regional_offset_spec(roman_numeral@) {
            Some(o) => r == Some(o as usize),
            None => r is None,
        },
{
    let c = str_to_chars(roman_numeral);
    assert(c@.subrange(0, c@.len() as int) =~= c@);
    regional_offset_exec(&c, 0, c.len())
}

/// The chromatic offset of a Roman numeral chord, ignoring any "_o" suffix.
pub fn get_roman_numeral_chromatic_offset(roman_numeral: &str) -> (r: Option<usize>)
    ensures
        match chromatic_offset_spec(roman_numeral@) {
            Some(o) => r == Some(o as usize),
            None => r is None,
        },
{
    let c = str_to_chars(roman_numeral);
    assert(c@.subrange(0, c@.len() as int) =~= c@);
    chromatic_offset_exec(&c, 0, c.len())
}

/// The scale degree (from 0) of a Roman numeral chord, ignoring any "_o" suffix.
pub fn get_roman_numeral_diatonic_offset(roman_numeral: &str) -> (r: Option<usize>)
    ensures
        match diatonic_offset_spec(roman_numeral@) {
            Some(o) => r == Some(o as usize),
            None => r is None,
        },
{
    let c = str_to_chars(roman_numeral);
    assert(c@.subrange(0, c@.len() as int) =~= c@);
    let end = strip_diminished_exec(&c, 0, c.len());
    roman_index_exec(&c, 0, end)
}

/// Whether a numeral names a minor chord: it holds a lowercase i or v.
pub fn is_minor_chord(s: &str) -> (r: bool)
    ensures
        r == is_minor_spec(s@),
{
    let c = str_to_chars(s);
    assert(c@.subrange(0, c@.len() as int) =~= c@);
    is_minor_exec(&c, 0, c.len())
}

/// Returns the pitch class space of the chord on scale degree `chord_diatonic_offset`, with the
/// region's tonic at pitch class 0. Dominant chords (V, vii) of a minor region use the harmonic
/// minor space.
pub fn get_pitch_class_space_from_roman_numeral(chord_diatonic_offset: usize, minor_region: bool)
    -> (r: Option<PitchClassSpace>)
    ensures
        r matches Some(space) && space.highest_levels@ == roman_space_spec(
            chord_diatonic_offset,
            minor_region,
            true,
        ),
{
    Some(degree_space(chord_diatonic_offset, minor_region, true))
}

/// The space of the chord on a scale degree, as `roman_space_spec` says.
fn degree_space(chord_diatonic_offset: usize, minor_region: bool, lowercase_chord: bool) -> (space:
    PitchClassSpace)
    ensures
        space.highest_levels@ == roman_space_spec(
            chord_diatonic_offset,
            minor_region,
            lowercase_chord,
        ),
{
    let is_dominant_chord = chord_diatonic_offset == 4 || (chord_diatonic_offset == 6
        && lowercase_chord);
    let mut space = if minor_region {
        if is_dominant_chord {
            PitchClassSpace::c_harmonic_min()
        } else {
            PitchClassSpace::c_nat_min()
        }
    } else {
        PitchClassSpace::c_maj()
    };
    proof {
        lemma_first_index(space.highest_levels@, SpaceLevel::Octave, 0);
        lemma_rotate_keeps_root(
            space.highest_levels@,
            SpaceLevel::Diatonic,
            (chord_diatonic_offset as isize) as int,
        );
    }
    space.rotate_on_level(SpaceLevel::Diatonic, chord_diatonic_offset as isize);
    space
}

/// Parse "chord/region", such as "V/ii" or "vii_o/I", into the space of the chord moved into
/// its region; a chord alone, such as "ii", stands in the major region of pitch class 0.
pub fn parse_pitch_class_space(s: &str) -> (r: Result<PitchClassSpace, String>)
    ensures
        match r {
            Ok(space) => parse_space_spec(s@) == Ok::<Seq<SpaceLevel>, Seq<char>>(
                space.highest_levels@,
            ),
            Err(e) => parse_space_spec(s@) == Err::<Seq<SpaceLevel>, Seq<char>>(e@),
        },
{
    let c = str_to_chars(s);
    let n = c.len();
    let mut slashes: usize = 0;
    let mut first_slash: usize = 0;
    let mut i: usize = 0;
    while i < n
        invariant
            n == c@.len(),
            c@ == s@,
            i <= n,
            slashes == count_char(c@.take(i as int), '/'),
            slashes <= i,
            slashes > 0 ==> first_slash < i && c@[first_slash as int] == '/',
            slashes > 0 ==> forall|k: int| 0 <= k < first_slash ==> c@[k] != '/',
            slashes == 0 ==> forall|k: int| 0 <= k < i ==> c@[k] != '/',
        decreases n - i,
    {
        assert(c@.take(i + 1).drop_last() =~= c@.take(i as int));
        if c[i] == '/' {
            if slashes == 0 {
                first_slash = i;
            }
            slashes = slashes + 1;
        }
        i = i + 1;
    }
    assert(c@.take(n as int) =~= c@);
    if slashes == 1 {
        proof {
            lemma_single_char(c@, '/', first_slash as int);
        }
        let ghost p = choose|p: int| 0 <= p < s@.len() && s@[p] == '/';
        assert(p == first_slash);
        assert(c@.subrange(0, first_slash as int) =~= s@.take(p));
        assert(c@.subrange(first_slash + 1, n as int) =~= s@.skip(p + 1));
        let minor_region = is_minor_exec(&c, first_slash + 1, n);
        let lowercase_chord = is_minor_exec(&c, 0, first_slash);
        let end = strip_diminished_exec(&c, 0, first_slash);
        match roman_index_exec(&c, 0, end) {
            Some(chord_diatonic_offset) => {
                match regional_offset_exec(&c, first_slash + 1, n) {
                    Some(regional_chromatic_offset) => {
                        let mut space = degree_space(
                            chord_diatonic_offset,
                            minor_region,
                            lowercase_chord,
                        );
                        proof {
                            lemma_chromatic_steps(space.highest_levels@, 12);
                        }
                        space.rotate_on_level(
                            SpaceLevel::Chromatic,
                            regional_chromatic_offset as isize,
                        );
                        Ok(space)
                    },
                    None => Err(String::from_str("Invalid region Roman numeral: ").concat(s)),
                }
            },
            None => Err(String::from_str("Invalid chord Roman numeral: ").concat(s)),
        }
    } else if slashes == 0 {
        proof {
            assert(c@.subrange(0, n as int) =~= s@);
        }
        let end = strip_diminished_exec(&c, 0, n);
        match roman_index_exec(&c, 0, end) {
            Some(chord_diatonic_offset) => {
                Ok(degree_space(chord_diatonic_offset, false, false))
            },
            None => Err(String::from_str("Invalid chord Roman numeral: ").concat(s)),
        }
    } else {
        Err(String::from_str("Invalid input: ").concat(s))
    }
}

/// With exactly one occurrence of `c` in `s` at `p`, every other position differs from it.
proof fn lemma_single_char(s: Seq<char>, c: char, p: int)
    requires
        count_char(s, c) == 1,
        0 <= p < s.len(),
        s[p] == c,
    ensures
        forall|q: int| 0 <= q < s.len() && s[q] == c ==> q == p,
    decreases s.len(),
{
    assert forall|q: int| 0 <= q < s.len() && s[q] == c implies q == p by {
        if q != p {
            lemma_two_chars(s, c, p, q);
        }
    }
}

proof fn lemma_two_chars(s: Seq<char>, c: char, p: int, q: int)
    requires
        0 <= p < s.len(),
        0 <= q < s.len(),
        p != q,
        s[p] == c,
        s[q] == c,
    ensures
        count_char(s, c) >= 2,
    decreases s.len(),
{
    let last = s.len() - 1;
    if p == last {
        lemma_one_char(s.drop_last(), c, q);
    } else if q == last {
        lemma_one_char(s.drop_last(), c, p);
    } else {
        lemma_two_chars(s.drop_last(), c, p, q);
    }
}

proof fn lemma_one_char(s: Seq<char>, c: char, p: int)
    requires
        0 <= p < s.len(),
        s[p] == c,
    ensures
        count_char(s, c) >= 1,
    decreases s.len(),
{
    if p != s.len() - 1 {
        lemma_one_char(s.drop_last(), c, p);
    }
}

impl core::str::FromStr for PitchClassSpace {
    type Err = String;

    fn from_str(s: &str) -> (r: Result<Self, Self::Err>)
        ensures
            match r {
                Ok(space) => parse_space_spec(s@) == Ok::<Seq<SpaceLevel>, Seq<char>>(
                    space.highest_levels@,
                ),
                Err(e) => parse_space_spec(s@) == Err::<Seq<SpaceLevel>, Seq<char>>(e@),
            },
    {
        parse_pitch_class_space(s)
    }
}


/// The hexadecimal digit of a pitch class.
pub open spec fn hex_digit(i: int) -> char {
    if i < 10 {
        ((i + 48) as u8) as char
    } else {
        ((i - 10 + 97) as u8) as char
    }
}

/// The first `n` cells of the display line of `level`: the pitch class in hexadecimal and a
/// space where the pitch class is on the level, two spaces where it is not.
pub open spec fn level_line(v: Seq<SpaceLevel>, level: SpaceLevel, n: int) -> Seq<char>
    decreases n,
{
    if n <= 0 {
        Seq::empty()
    } else {
        level_line(v, level, n - 1) + if lvl(v[n - 1]) >= lvl(level) {
            seq![hex_digit(n - 1), ' ']
        } else {
            seq![' ', ' ']
        }
    }
}

/// The label of a level: a for the octave down to e for the chromatic level.
pub open spec fn level_label(level: SpaceLevel) -> char {
    match level {
        SpaceLevel::Octave => 'a',
        SpaceLevel::Fifth => 'b',
        SpaceLevel::Triadic => 'c',
        SpaceLevel::Diatonic => 'd',
        SpaceLevel::Chromatic => 'e',
    }
}

/// One row of the display: "x: " and the line of the level, then a newline.
pub open spec fn display_row(v: Seq<SpaceLevel>, level: SpaceLevel) -> Seq<char> {
    seq![level_label(level), ':', ' '] + level_line(v, level, 12) + seq!['\n']
}

/// The display of a space, one row per level from the octave level down.
pub open spec fn display_spec(v: Seq<SpaceLevel>) -> Seq<char> {
    display_row(v, A) + display_row(v, B) + display_row(v, C) + display_row(v, D) + display_row(
        v,
        E,
    )
}

fn cell_text(i: usize) -> (s: &'static str)
    requires
        i < 12,
    ensures
        s@ == seq![hex_digit(i as int), ' '],
{
    proof {
        reveal_strlit("0 ");
        reveal_strlit("1 ");
        reveal_strlit("2 ");
        reveal_strlit("3 ");
        reveal_strlit("4 ");
        reveal_strlit("5 ");
        reveal_strlit("6 ");
        reveal_strlit("7 ");
        reveal_strlit("8 ");
        reveal_strlit("9 ");
        reveal_strlit("a ");
        reveal_strlit("b ");
    }
    let s = if i == 0 {
        "0 "
    } else if i == 1 {
        "1 "
    } else if i == 2 {
        "2 "
    } else if i == 3 {
        "3 "
    } else if i == 4 {
        "4 "
    } else if i == 5 {
        "5 "
    } else if i == 6 {
        "6 "
    } else if i == 7 {
        "7 "
    } else if i == 8 {
        "8 "
    } else if i == 9 {
        "9 "
    } else if i == 10 {
        "a "
    } else {
        "b "
    };
    assert(s@ =~= seq![hex_digit(i as int), ' ']);
    s
}

fn label_text(level: SpaceLevel) -> (s: &'static str)
    ensures
        s@ == seq![level_label(level), ':', ' '],
{
    proof {
        reveal_strlit("a: ");
        reveal_strlit("b: ");
        reveal_strlit("c: ");
        reveal_strlit("d: ");
        reveal_strlit("e: ");
    }
    let s = match level {
        SpaceLevel::Octave => "a: ",
        SpaceLevel::Fifth => "b: ",
        SpaceLevel::Triadic => "c: ",
        SpaceLevel::Diatonic => "d: ",
        SpaceLevel::Chromatic => "e: ",
    };
    assert(s@ =~= seq![level_label(level), ':', ' ']);
    s
}

impl PitchClassSpace {
    fn push_row(&self, out: &mut String, level: SpaceLevel)
        ensures
            final(out)@ == old(out)@ + display_row(self.highest_levels@, level),
    {
        let ghost start = out@;
        out.append(label_text(level));
        let ghost with_label = out@;
        let mut i: usize = 0;
        while i < 12
            invariant
                i <= 12,
                out@ == with_label + level_line(self.highest_levels@, level, i as int),
            decreases 12 - i,
        {
            if self.highest_levels[i].to_int() >= level.to_int() {
                out.append(cell_text(i));
            } else {
                proof {
                    reveal_strlit("  ");
                }
                out.append("  ");
                assert("  "@ =~= seq![' ', ' ']);
            }
            assert(out@ =~= with_label + level_line(self.highest_levels@, level, i + 1));
            i = i + 1;
        }
        proof {
            reveal_strlit("\n");
        }
        out.append("\n");
        assert(out@ =~= start + display_row(self.highest_levels@, level));
    }

    /// The space drawn one level per row, as in
    /// "a: 0 ...", "b: 0             7 ...", down to "e: 0 1 2 3 4 5 6 7 8 9 a b ".
    pub fn to_string(&self) -> (s: String)
        ensures
            s@ == display_spec(self.highest_levels@),
    {
        let mut out = String::new();
        self.push_row(&mut out, A);
        self.push_row(&mut out, B);
        self.push_row(&mut out, C);
        self.push_row(&mut out, D);
        self.push_row(&mut out, E);
        assert(out@ =~= display_spec(self.highest_levels@));
        out
    }
}


/// The total distance between two spaces is at most 64.
pub proof fn lemma_total_distance_bound(v: Seq<SpaceLevel>, w: Seq<SpaceLevel>)
    requires
        distance_defined(v, w),
    ensures
        0 <= total_distance_spec(v, w) <= 64,
{
    lemma_new_pcs_bound(v, w, 12);
}

proof fn lemma_new_pcs_bound(v: Seq<SpaceLevel>, w: Seq<SpaceLevel>, n: int)
    ensures
        0 <= new_pcs_upto(v, w, n) <= 4 * (if n > 0 { n } else { 0 }),
    decreases n,
{
    if n > 0 {
        lemma_new_pcs_bound(v, w, n - 1);
    }
}


/// A chord is at distance zero from itself, and when it has a root and a fifth the distance
/// from it to itself is defined.
pub proof fn lemma_distance_to_itself(v: Seq<SpaceLevel>)
    ensures
        total_distance_spec(v, v) == 0,
        has_root(v) && has_fifth(v) ==> distance_defined(v, v),
{
    assert(rotate_n(v, SpaceLevel::Chromatic, 7, 0) == v);
    assert(first_region_match(v, v, 0) == 0);
    assert(rotate_n(v, SpaceLevel::Diatonic, 4, 0) == v);
    assert(chord_start(v, v) == v);
    assert(first_root_match(v, root_of(v), 0) == 0);
    lemma_new_pcs_itself(v, 12);
}

proof fn lemma_new_pcs_itself(v: Seq<SpaceLevel>, n: int)
    ensures
        new_pcs_upto(v, v, n) == 0,
    decreases n,
{
    if n > 0 {
        lemma_new_pcs_itself(v, n - 1);
    }
}

} // verus!
