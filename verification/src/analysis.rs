use vstd::prelude::*;
use crate::cfg::{GrammarDerivation, DerivV, MusicTransform, NonTerminal, deriv_view, derivs_view};
use crate::pitch_class_space::{PitchClassSpace, parse_pitch_class_space, parse_space_spec, SpaceLevel};
use crate::text::{str_to_chars, push_char};

verus! {

/// The chord that a non-terminal names: what follows `prefix`, when it starts with it.
pub open spec fn chord_name(nt: Seq<char>, prefix: Seq<char>) -> Option<Seq<char>> {
    if prefix.len() <= nt.len() && nt.take(prefix.len() as int) == prefix {
        Some(nt.skip(prefix.len() as int))
    } else {
        None
    }
}

/// `s` repeated `n` times.
pub open spec fn repeat_seq(s: Seq<Seq<char>>, n: nat) -> Seq<Seq<char>>
    decreases n,
{
    if n == 0 {
        Seq::empty()
    } else {
        repeat_seq(s, (n - 1) as nat) + s
    }
}

/// The chords named in a derivation, in order: a chord non-terminal stands for itself and is
/// not looked into; transposed content is left out; repeated content is repeated; of a split,
/// the first branch that names any chord counts.
pub open spec fn chords_spec(d: DerivV, prefix: Seq<char>) -> Seq<Seq<char>>
    decreases d,
{
    match d {
        DerivV::Branch(nt, content) => match chord_name(nt, prefix) {
            Some(c) => seq![c],
            None => chords_seq(content, prefix),
        },
        DerivV::Wrapped(t, content) => match t {
            MusicTransform::Transpose { .. } => Seq::empty(),
            MusicTransform::Repeat { num } => repeat_seq(chords_seq(content, prefix), num as nat),
            MusicTransform::Compression { .. } => chords_seq(content, prefix),
        },
        DerivV::Split(branches) => first_chords(branches, prefix),
        DerivV::NTLeaf(nt) => match chord_name(nt, prefix) {
            Some(c) => seq![c],
            None => Seq::empty(),
        },
        DerivV::TLeaf(_) => Seq::empty(),
    }
}

/// The chords of a sequence of derivations, one after the other.
pub open spec fn chords_seq(ds: Seq<DerivV>, prefix: Seq<char>) -> Seq<Seq<char>>
    decreases ds,
{
    if ds.len() == 0 {
        Seq::empty()
    } else {
        proof {
            assert(decreases_to!(ds => ds.drop_last()));
            assert(decreases_to!(ds => ds[ds.len() - 1]));
        }
        chords_seq(ds.drop_last(), prefix) + chords_spec(ds[ds.len() - 1], prefix)
    }
}

/// The chords of derivations one after the other are the chords of each, one after the
/// other.
pub proof fn lemma_chords_concat(a: Seq<DerivV>, b: Seq<DerivV>, prefix: Seq<char>)
    ensures
        chords_seq(a + b, prefix) == chords_seq(a, prefix) + chords_seq(b, prefix),
    decreases b.len(),
{
    if b.len() == 0 {
        assert(a + b =~= a);
        assert(chords_seq(a, prefix) + chords_seq(b, prefix) =~= chords_seq(a, prefix));
    } else {
        lemma_chords_concat(a, b.drop_last(), prefix);
        assert((a + b).drop_last() =~= a + b.drop_last());
        assert((a + b)[(a + b).len() - 1] == b[b.len() - 1]);
        assert(chords_seq(a + b, prefix) =~= chords_seq(a, prefix) + chords_seq(b, prefix));
    }
}

/// Chords repeated `m + n` times are those repeated `m` times followed by those repeated
/// `n` times; so a repeated passage names its chords once per repetition.
pub proof fn lemma_repeat_seq_add(s: Seq<Seq<char>>, m: nat, n: nat)
    ensures
        repeat_seq(s, m + n) == repeat_seq(s, m) + repeat_seq(s, n),
        repeat_seq(s, 1) == s,
    decreases n,
{
    assert(repeat_seq(s, 1) =~= s) by {
        assert(repeat_seq(s, 0) == Seq::<Seq<char>>::empty());
    }
    if n == 0 {
        assert(repeat_seq(s, m) + repeat_seq(s, 0) =~= repeat_seq(s, m));
    } else {
        lemma_repeat_seq_add(s, m, (n - 1) as nat);
        assert((m + n - 1) as nat == (m + (n - 1)) as nat);
        assert(repeat_seq(s, m + n) =~= repeat_seq(s, m) + repeat_seq(s, n));
    }
}

/// The chords of the first branch that names any; none when no branch does.
pub open spec fn first_chords(bs: Seq<Seq<DerivV>>, prefix: Seq<char>) -> Seq<Seq<char>>
    decreases bs,
{
    if bs.len() == 0 {
        Seq::empty()
    } else {
        proof {
            assert(decreases_to!(bs => bs[0]));
            assert(decreases_to!(bs => bs.drop_first()));
        }
        let c = chords_seq(bs[0], prefix);
        if c.len() > 0 {
            c
        } else {
            first_chords(bs.drop_first(), prefix)
        }
    }
}

/// The views of some strings.
pub open spec fn strings_seq(v: Seq<String>) -> Seq<Seq<char>> {
    Seq::new(v.len(), |i: int| v[i]@)
}

proof fn lemma_strings_push(v: Seq<String>, x: String)
    ensures
        strings_seq(v.push(x)) == strings_seq(v).push(x@),
{
    assert(strings_seq(v.push(x)) =~= strings_seq(v).push(x@));
}

/// Append the strings `w` to `v`.
fn append_strings(v: &mut Vec<String>, w: &Vec<String>)
    ensures
        strings_seq(final(v)@) == strings_seq(old(v)@) + strings_seq(w@),
{
    let ghost start = strings_seq(v@);
    let mut i: usize = 0;
    while i < w.len()
        invariant
            i <= w@.len(),
            strings_seq(v@) == start + strings_seq(w@).take(i as int),
        decreases w@.len() - i,
    {
        let ghost before = v@;
        v.push(w[i].clone());
        proof {
            lemma_strings_push(before, w@[i as int]);
            assert(strings_seq(w@).take(i + 1) =~= strings_seq(w@).take(i as int).push(w@[i as int]@));
        }
        i = i + 1;
    }
    assert(strings_seq(w@).take(i as int) =~= strings_seq(w@));
}

/// The chord that the non-terminal names, if it starts with the prefix.
fn chord_of(nt: &NonTerminal, prefix: &Vec<char>) -> (r: Option<String>)
    ensures
        r matches Some(s) ==> chord_name(crate::cfg::nt_view(*nt), prefix@) == Some(s@),
        r is None ==> chord_name(crate::cfg::nt_view(*nt), prefix@) is None,
{
    match nt {
        NonTerminal::Custom(name) => {
            let c = str_to_chars(name.as_str());
            let n = prefix.len();
            assert(c@ == crate::cfg::nt_view(*nt));
            if n > c.len() {
                return None;
            }
            let mut k: usize = 0;
            while k < n
                invariant
                    c@ == crate::cfg::nt_view(*nt),
                    n == prefix@.len(),
                    n <= c@.len(),
                    k <= n,
                    forall|j: int| 0 <= j < k ==> c@[j] == prefix@[j],
                decreases n - k,
            {
                if c[k] != prefix[k] {
                    assert(c@.take(n as int)[k as int] != prefix@[k as int]);
                    return None;
                }
                k = k + 1;
            }
            assert(c@.take(n as int) =~= prefix@);
            let mut out = String::new();
            let mut j = n;
            while j < c.len()
                invariant
                    n <= j <= c@.len(),
                    out@ == c@.subrange(n as int, j as int),
                decreases c@.len() - j,
            {
                push_char(&mut out, c[j]);
                j = j + 1;
                assert(out@ =~= c@.subrange(n as int, j as int));
            }
            Some(out)
        },
    }
}

fn chords_in(d: &GrammarDerivation, prefix: &Vec<char>) -> (r: Vec<String>)
    ensures
        strings_seq(r@) == chords_spec(deriv_view(*d), prefix@),
    decreases d,
{
    match d {
        GrammarDerivation::Branch { nt, content } => {
            match chord_of(nt, prefix) {
                Some(c) => {
                    let v = vec![c];
                    assert(strings_seq(v@) =~= seq![c@]);
                    v
                },
                None => chords_in_all(content, prefix),
            }
        },
        GrammarDerivation::Wrapped { content, transform } => {
            match transform {
                MusicTransform::Transpose { .. } => {
                    // transposed content cannot be analysed yet
                    let v: Vec<String> = Vec::new();
                    assert(strings_seq(v@) =~= Seq::<Seq<char>>::empty());
                    v
                },
                MusicTransform::Repeat { num } => {
                    let chords = chords_in_all(content, prefix);
                    let mut out: Vec<String> = Vec::new();
                    let mut k: usize = 0;
                    assert(strings_seq(out@) =~= Seq::<Seq<char>>::empty());
                    while k < *num
                        invariant
                            k <= *num,
                            strings_seq(out@) == repeat_seq(strings_seq(chords@), k as nat),
                        decreases *num - k,
                    {
                        append_strings(&mut out, &chords);
                        k = k + 1;
                    }
                    out
                },
                MusicTransform::Compression { .. } => chords_in_all(content, prefix),
            }
        },
        GrammarDerivation::Split { branches } => {
            // chords are expected in one branch only: keep the first that has any
            let ghost bs = Seq::new(branches@.len(), |i: int| derivs_view(branches@[i]));
            proof {
                assert(deriv_view(*d)->Split_0 =~= bs);
            }
            let mut i: usize = 0;
            assert(bs.skip(0) =~= bs);
            while i < branches.len()
                invariant
                    deriv_view(*d) == DerivV::Split(bs),
                    (*d) is Split,
                    (*d)->Split_branches == *branches,
                    i <= branches@.len(),
                    bs == Seq::new(branches@.len(), |i: int| derivs_view(branches@[i])),
                    first_chords(bs, prefix@) == first_chords(bs.skip(i as int), prefix@),
                decreases branches@.len() - i,
            {
                proof {
                    assert(decreases_to!(*d => (*d)->Split_branches));
                    assert(decreases_to!(*branches => branches@));
                    assert(decreases_to!(branches@ => branches@[i as int]));
                    assert(bs.skip(i as int)[0] == derivs_view(branches@[i as int]));
                    assert(bs.skip(i as int).drop_first() =~= bs.skip(i + 1));
                }
                let c = chords_in_all(&branches[i], prefix);
                if c.len() > 0 {
                    assert(strings_seq(c@).len() > 0);
                    return c;
                }
                i = i + 1;
            }
            let v: Vec<String> = Vec::new();
            assert(strings_seq(v@) =~= Seq::<Seq<char>>::empty());
            assert(bs.skip(i as int).len() == 0);
            v
        },
        GrammarDerivation::NTLeaf(nt) => {
            // never expanded, but counted all the same
            match chord_of(nt, prefix) {
                Some(c) => {
                    let v = vec![c];
                    assert(strings_seq(v@) =~= seq![c@]);
                    v
                },
                None => {
                    let v: Vec<String> = Vec::new();
                    assert(strings_seq(v@) =~= Seq::<Seq<char>>::empty());
                    v
                },
            }
        },
        GrammarDerivation::TLeaf(_) => {
            let v: Vec<String> = Vec::new();
            assert(strings_seq(v@) =~= Seq::<Seq<char>>::empty());
            v
        },
    }
}

fn chords_in_all(ds: &Vec<GrammarDerivation>, prefix: &Vec<char>) -> (r: Vec<String>)
    ensures
        strings_seq(r@) == chords_seq(derivs_view(*ds), prefix@),
    decreases ds,
{
    let mut out: Vec<String> = Vec::new();
    let mut i: usize = 0;
    assert(strings_seq(out@) =~= Seq::<Seq<char>>::empty());
    while i < ds.len()
        invariant
            i <= ds@.len(),
            strings_seq(out@) == chords_seq(derivs_view(*ds).take(i as int), prefix@),
        decreases ds@.len() - i,
    {
        proof {
            assert(decreases_to!(*ds => ds@));
            assert(decreases_to!(ds@ => ds@[i as int]));
            assert(derivs_view(*ds).take(i + 1).drop_last() =~= derivs_view(*ds).take(i as int));
        }
        let c = chords_in(&ds[i], prefix);
        append_strings(&mut out, &c);
        i = i + 1;
    }
    assert(derivs_view(*ds).take(i as int) =~= derivs_view(*ds));
    out
}

/// An in-order walk over a derivation collecting the non-terminals that are chords: those
/// whose names start with `chord_prefix` (such as "#I/V" with the prefix "#"), without it.
pub fn extract_symbolic_chord_structure(derivation: &GrammarDerivation, chord_prefix: &str) -> (r:
    Vec<String>)
    ensures
        strings_seq(r@) == chords_spec(deriv_view(*derivation), chord_prefix@),
{
    let prefix = str_to_chars(chord_prefix);
    chords_in(derivation, &prefix)
}

/// The chords named in a derivation, each read as a pitch class space; every one must read.
pub fn extract_chord_structure(derivation: &GrammarDerivation, chord_prefix: &str) -> (r: Vec<
    PitchClassSpace,
>)
    requires
        forall|k: int|
            0 <= k < chords_spec(deriv_view(*derivation), chord_prefix@).len() ==> parse_space_spec(
                #[trigger] chords_spec(deriv_view(*derivation), chord_prefix@)[k],
            ) is Ok,
    ensures
        r@.len() == chords_spec(deriv_view(*derivation), chord_prefix@).len(),
        forall|k: int|
            0 <= k < r@.len() ==> parse_space_spec(
                #[trigger] chords_spec(deriv_view(*derivation), chord_prefix@)[k],
            ) == Ok::<Seq<SpaceLevel>, Seq<char>>(r@[k].highest_levels@),
{
    let chords = extract_symbolic_chord_structure(derivation, chord_prefix);
    let ghost names = chords_spec(deriv_view(*derivation), chord_prefix@);
    let mut out: Vec<PitchClassSpace> = Vec::new();
    let mut i: usize = 0;
    while i < chords.len()
        invariant
            i <= chords@.len(),
            names == chords_spec(deriv_view(*derivation), chord_prefix@),
            strings_seq(chords@) == names,
            forall|k: int| 0 <= k < names.len() ==> parse_space_spec(#[trigger] names[k]) is Ok,
            out@.len() == i,
            forall|k: int|
                0 <= k < i ==> parse_space_spec(#[trigger] names[k]) == Ok::<
                    Seq<SpaceLevel>,
                    Seq<char>,
                >(out@[k].highest_levels@),
        decreases chords@.len() - i,
    {
        assert(names[i as int] == chords@[i as int]@);
        match parse_pitch_class_space(chords[i].as_str()) {
            Ok(space) => out.push(space),
            Err(_) => {
                assert(parse_space_spec(names[i as int]) is Ok);
                return out;
            },
        }
        i = i + 1;
    }
    out
}

} // verus!
