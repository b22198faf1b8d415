use vstd::prelude::*;
use crate::music_primitives::{Duration, Pitch, TimeSignature};
use crate::composition::{Instrument, Volume, TimeCompression, MAX_VOLUME};

verus! {

/// A grammar: its start symbol, its productions, and the time signature of its music.
#[derive(Debug)]
pub struct Grammar {
    pub start: NonTerminal,
    pub productions: Vec<Production>,
    pub time_signature: TimeSignature,
}

/// A production `NonTerminal = MusicString`.
#[derive(Debug)]
pub struct Production(pub NonTerminal, pub MusicString);

/// A sequence of music primitives.
#[derive(Debug)]
pub struct MusicString(pub Vec<MusicPrimitive>);

/// One element of a music string.
#[derive(Debug)]
pub enum MusicPrimitive {
    Simple(Symbol),
    Split { branches: Vec<MusicString> },
    Transform { transform: MusicTransform, content: MusicString },
}

#[derive(Debug, Clone, Copy)]
pub enum MusicTransform {
    Transpose { semitones: i8 },
    Repeat { num: usize },
    Compression { factor: TimeCompression },
}

#[derive(Debug)]
pub enum Symbol {
    NT(NonTerminal),
    T(Terminal),
}

#[derive(Debug, PartialEq, Eq)]
pub enum NonTerminal {
    Custom(String),
}

#[derive(Debug, Clone, Copy)]
pub enum Terminal {
    /// Play this specific note.
    AbsoluteSound { duration: Duration, note: TerminalNote },
    /// Play a sound for this length with whatever settings the performer currently has.
    CurrentSound { duration: Duration },
    MovePitch { semitones: i8 },
    Meta(MetaControl),
}

#[derive(Debug, Clone, Copy)]
pub enum TerminalNote {
    Note { pitch: Pitch },
    Rest,
}

#[derive(Debug, Clone, Copy)]
pub enum MetaControl {
    ChangeInstrument(Instrument),
    ChangeVolume(Volume),
}

#[derive(Debug)]
pub enum ComposeError {
    MismatchedLengths(String),
}

/// The state carried along while composing: the current instrument, volume and pitch.
#[derive(Debug, Clone, Copy)]
pub struct Performer {
    pub instrument: Instrument,
    pub volume: Volume,
    pub pitch: Pitch,
}

/// How a grammar is expanded.
pub struct GrammarDerivationConfig {
    pub iterations: usize,
    pub panic_on_bad_production: bool,
    /// Rounds out the composition to whole measures by padding with rests.
    pub rounded: bool,
    /// Maximum depth of the grammar derivation tree.
    pub max_depth: usize,
}


/// This is like a music string but keeps the non-terminals in a tree. Since music primitives
/// contain music strings, those inner strings become derivations too.
#[derive(Debug)]
pub enum GrammarDerivation {
    /// The root of a subtree: the expansion of a non-terminal.
    Branch { nt: NonTerminal, content: Vec<GrammarDerivation> },
    /// A non-destructive wrapper around a number of subtrees.
    Wrapped { transform: MusicTransform, content: Vec<GrammarDerivation> },
    /// A split in the music.
    Split { branches: Vec<Vec<GrammarDerivation>> },
    /// A non-terminal that has not been expanded.
    NTLeaf(NonTerminal),
    /// A terminal: it cannot be expanded any further.
    TLeaf(Terminal),
}

/// A derivation with its non-terminals seen as characters.
pub enum DerivV {
    Branch(Seq<char>, Seq<DerivV>),
    Wrapped(MusicTransform, Seq<DerivV>),
    Split(Seq<Seq<DerivV>>),
    NTLeaf(Seq<char>),
    TLeaf(Terminal),
}

pub open spec fn deriv_view(d: GrammarDerivation) -> DerivV
    decreases d,
{
    match d {
        GrammarDerivation::Branch { nt, content } => DerivV::Branch(nt_view(nt), derivs_view(content)),
        GrammarDerivation::Wrapped { transform, content } => DerivV::Wrapped(
            transform,
            derivs_view(content),
        ),
        GrammarDerivation::Split { branches } => DerivV::Split(
            Seq::new(
                branches@.len(),
                |i: int|
                    if 0 <= i < branches@.len() {
                        proof {
                            assert(decreases_to!(branches => branches@));
                            assert(decreases_to!(branches@ => branches@[i]));
                        }
                        derivs_view(branches@[i])
                    } else {
                        Seq::empty()
                    },
            ),
        ),
        GrammarDerivation::NTLeaf(nt) => DerivV::NTLeaf(nt_view(nt)),
        GrammarDerivation::TLeaf(t) => DerivV::TLeaf(t),
    }
}

/// The views of a vector of derivations.
pub open spec fn derivs_view(v: Vec<GrammarDerivation>) -> Seq<DerivV>
    decreases v,
{
    Seq::new(
        v@.len(),
        |i: int|
            if 0 <= i < v@.len() {
                proof {
                    assert(decreases_to!(v => v@));
                    assert(decreases_to!(v@ => v@[i]));
                }
                deriv_view(v@[i])
            } else {
                DerivV::NTLeaf(Seq::empty())
            },
    )
}

/// The characters of a non-terminal.
pub open spec fn nt_view(nt: NonTerminal) -> Seq<char> {
    match nt {
        NonTerminal::Custom(s) => s@,
    }
}

/// A symbol with its non-terminal seen as characters.
pub enum SymbolV {
    NT(Seq<char>),
    T(Terminal),
}

/// A music primitive with its non-terminals seen as characters.
pub enum PrimV {
    Simple(SymbolV),
    Split(Seq<Seq<PrimV>>),
    Transform(MusicTransform, Seq<PrimV>),
}

pub open spec fn symbol_view(s: Symbol) -> SymbolV {
    match s {
        Symbol::NT(nt) => SymbolV::NT(nt_view(nt)),
        Symbol::T(t) => SymbolV::T(t),
    }
}

pub open spec fn prim_view(p: MusicPrimitive) -> PrimV
    decreases p,
{
    match p {
        MusicPrimitive::Simple(s) => PrimV::Simple(symbol_view(s)),
        MusicPrimitive::Split { branches } => PrimV::Split(
            Seq::new(
                branches@.len(),
                |i: int|
                    if 0 <= i < branches@.len() {
                        proof {
                            assert(decreases_to!(branches => branches@));
                            assert(decreases_to!(branches@ => branches@[i]));
                        }
                        ms_view(branches@[i])
                    } else {
                        Seq::empty()
                    },
            ),
        ),
        MusicPrimitive::Transform { transform, content } => PrimV::Transform(
            transform,
            ms_view(content),
        ),
    }
}

/// A music string seen with its non-terminals as characters.
pub open spec fn ms_view(ms: MusicString) -> Seq<PrimV>
    decreases ms,
{
    Seq::new(
        ms.0@.len(),
        |i: int|
            if 0 <= i < ms.0@.len() {
                proof {
                    assert(decreases_to!(ms => ms.0));
                    assert(decreases_to!(ms.0 => ms.0@));
                    assert(decreases_to!(ms.0@ => ms.0@[i]));
                }
                prim_view(ms.0@[i])
            } else {
                PrimV::Simple(SymbolV::NT(Seq::empty()))
            },
    )
}

/// A production seen with its non-terminals as characters.
pub open spec fn production_view(p: Production) -> (Seq<char>, Seq<PrimV>) {
    (nt_view(p.0), ms_view(p.1))
}

/// The music string of a derivation: its leaves in order, with transforms and splits kept.
pub open spec fn deriv_ms(d: DerivV) -> Seq<PrimV>
    decreases d,
{
    match d {
        DerivV::Branch(_, content) => derivs_ms(content),
        DerivV::Wrapped(t, content) => seq![PrimV::Transform(t, derivs_ms(content))],
        DerivV::Split(branches) => seq![
            PrimV::Split(
                Seq::new(
                    branches.len(),
                    |i: int|
                        if 0 <= i < branches.len() {
                            proof {
                                assert(decreases_to!(branches => branches[i]));
                            }
                            derivs_ms(branches[i])
                        } else {
                            Seq::empty()
                        },
                ),
            ),
        ],
        DerivV::NTLeaf(nt) => seq![PrimV::Simple(SymbolV::NT(nt))],
        DerivV::TLeaf(t) => seq![PrimV::Simple(SymbolV::T(t))],
    }
}

/// The music strings of a sequence of derivations, one after the other.
pub open spec fn derivs_ms(ds: Seq<DerivV>) -> Seq<PrimV>
    decreases ds,
{
    if ds.len() == 0 {
        Seq::empty()
    } else {
        proof {
            assert(decreases_to!(ds => ds.drop_last()));
            assert(decreases_to!(ds => ds[ds.len() - 1]));
        }
        derivs_ms(ds.drop_last()) + deriv_ms(ds[ds.len() - 1])
    }
}

/// The music string of derivations one after the other is the music string of each, one
/// after the other.
pub proof fn lemma_derivs_ms_concat(a: Seq<DerivV>, b: Seq<DerivV>)
    ensures
        derivs_ms(a + b) == derivs_ms(a) + derivs_ms(b),
    decreases b.len(),
{
    if b.len() == 0 {
        assert(a + b =~= a);
        assert(derivs_ms(a) + derivs_ms(b) =~= derivs_ms(a));
    } else {
        lemma_derivs_ms_concat(a, b.drop_last());
        assert((a + b).drop_last() =~= a + b.drop_last());
        assert((a + b)[(a + b).len() - 1] == b[b.len() - 1]);
        assert(derivs_ms(a + b) =~= derivs_ms(a) + derivs_ms(b));
    }
}

/// The number of non-terminals in a derivation: its unexpanded leaves and its branches.
pub open spec fn count_nts_spec(d: DerivV) -> nat
    decreases d,
{
    match d {
        DerivV::Branch(_, content) => 1 + count_nts_seq(content),
        DerivV::Wrapped(_, content) => count_nts_seq(content),
        DerivV::Split(branches) => count_nts_branches(branches),
        DerivV::NTLeaf(_) => 1,
        DerivV::TLeaf(_) => 0,
    }
}

pub open spec fn count_nts_seq(ds: Seq<DerivV>) -> nat
    decreases ds,
{
    if ds.len() == 0 {
        0
    } else {
        proof {
            assert(decreases_to!(ds => ds.drop_last()));
            assert(decreases_to!(ds => ds[ds.len() - 1]));
        }
        count_nts_seq(ds.drop_last()) + count_nts_spec(ds[ds.len() - 1])
    }
}

pub open spec fn count_nts_branches(bs: Seq<Seq<DerivV>>) -> nat
    decreases bs,
{
    if bs.len() == 0 {
        0
    } else {
        proof {
            assert(decreases_to!(bs => bs.drop_last()));
            assert(decreases_to!(bs => bs[bs.len() - 1]));
        }
        count_nts_branches(bs.drop_last()) + count_nts_seq(bs[bs.len() - 1])
    }
}

proof fn lemma_derivs_view_push(v: Vec<GrammarDerivation>, d: GrammarDerivation, w: Vec<GrammarDerivation>)
    requires
        w@ == v@.push(d),
    ensures
        derivs_view(w) == derivs_view(v).push(deriv_view(d)),
{
    assert(derivs_view(w) =~= derivs_view(v).push(deriv_view(d)));
}

proof fn lemma_derivs_take(v: Vec<GrammarDerivation>, i: int)
    requires
        0 <= i < v@.len(),
    ensures
        derivs_view(v).take(i + 1).drop_last() == derivs_view(v).take(i),
        derivs_view(v).take(i + 1)[i] == deriv_view(v@[i]),
{
    assert(derivs_view(v).take(i + 1).drop_last() =~= derivs_view(v).take(i));
}

impl GrammarDerivation {
    /// An in-order walk over the leaves, giving the music string that can then be composed.
    pub fn to_music_string(&self) -> (ms: MusicString)
        ensures
            ms_view(ms) == deriv_ms(deriv_view(*self)),
        decreases self,
    {
        match self {
            GrammarDerivation::Branch { content, .. } => {
                let primitives = Self::music_string_of_all(content);
                MusicString(primitives)
            },
            GrammarDerivation::Wrapped { transform, content } => {
                let primitives = Self::music_string_of_all(content);
                let p = MusicPrimitive::Transform {
                    transform: *transform,
                    content: MusicString(primitives),
                };
                let v = vec![p];
                proof {
                    assert(ms_view(MusicString(v)) =~= seq![prim_view(p)]);
                }
                MusicString(v)
            },
            GrammarDerivation::Split { branches } => {
                let mut new_branches: Vec<MusicString> = Vec::new();
                let mut i: usize = 0;
                while i < branches.len()
                    invariant
                        (*self) is Split,
                        (*self)->Split_branches == *branches,
                        i <= branches@.len(),
                        new_branches@.len() == i,
                        forall|k: int|
                            0 <= k < i ==> ms_view(#[trigger] new_branches@[k]) == derivs_ms(
                                derivs_view(branches@[k]),
                            ),
                    decreases branches@.len() - i,
                {
                    proof {
                        assert((*self)->Split_branches == *branches);
                        assert(decreases_to!(*self => (*self)->Split_branches));
                        assert(decreases_to!(*branches => branches@));
                        assert(decreases_to!(branches@ => branches@[i as int]));
                    }
                    let ms = MusicString(Self::music_string_of_all(&branches[i]));
                    new_branches.push(ms);
                    i = i + 1;
                }
                let p = MusicPrimitive::Split { branches: new_branches };
                proof {
                    let dv = deriv_view(*self);
                    let a = prim_view(p);
                    let b = PrimV::Split(
                        Seq::new(
                            branches@.len(),
                            |k: int|
                                if 0 <= k < branches@.len() {
                                    derivs_ms(derivs_view(branches@[k]))
                                } else {
                                    Seq::empty()
                                },
                        ),
                    );
                    assert(a->Split_0 =~= b->Split_0);
                    assert(dv->Split_0 =~= Seq::new(
                        branches@.len(),
                        |k: int|
                            if 0 <= k < branches@.len() {
                                derivs_view(branches@[k])
                            } else {
                                Seq::empty()
                            },
                    ));
                    assert(deriv_ms(dv)[0]->Split_0 =~= b->Split_0);
                    assert(deriv_ms(dv) =~= seq![b]);
                }
                let v = vec![p];
                proof {
                    assert(ms_view(MusicString(v)) =~= seq![prim_view(p)]);
                }
                MusicString(v)
            },
            GrammarDerivation::NTLeaf(nt) => {
                let p = MusicPrimitive::Simple(Symbol::NT(nt.clone()));
                let v = vec![p];
                proof {
                    assert(ms_view(MusicString(v)) =~= seq![prim_view(p)]);
                }
                MusicString(v)
            },
            GrammarDerivation::TLeaf(t) => {
                let p = MusicPrimitive::Simple(Symbol::T(*t));
                let v = vec![p];
                proof {
                    assert(ms_view(MusicString(v)) =~= seq![prim_view(p)]);
                }
                MusicString(v)
            },
        }
    }

    /// The primitives of the music strings of `ds`, one after the other.
    fn music_string_of_all(ds: &Vec<GrammarDerivation>) -> (v: Vec<MusicPrimitive>)
        ensures
            ms_view(MusicString(v)) == derivs_ms(derivs_view(*ds)),
        decreases ds,
    {
        let mut primitives: Vec<MusicPrimitive> = Vec::new();
        let mut i: usize = 0;
        while i < ds.len()
            invariant
                i <= ds@.len(),
                ms_view(MusicString(primitives)) == derivs_ms(derivs_view(*ds).take(i as int)),
            decreases ds@.len() - i,
        {
            proof {
                assert(decreases_to!(*ds => ds@));
                assert(decreases_to!(ds@ => ds@[i as int]));
                lemma_derivs_take(*ds, i as int);
            }
            let sub = ds[i].to_music_string();
            let ghost before = ms_view(MusicString(primitives));
            let ghost sub_view = ms_view(sub);
            let mut sub_prims = sub.0;
            primitives.append(&mut sub_prims);
            proof {
                assert(ms_view(MusicString(primitives)) =~= before + sub_view);
            }
            i = i + 1;
        }
        proof {
            assert(derivs_view(*ds).take(ds@.len() as int) =~= derivs_view(*ds));
        }
        primitives
    }
}

proof fn lemma_count_seq_prefix(ds: Seq<DerivV>, i: int)
    requires
        0 <= i <= ds.len(),
    ensures
        count_nts_seq(ds.take(i)) <= count_nts_seq(ds),
    decreases ds.len() - i,
{
    if i < ds.len() {
        lemma_count_seq_prefix(ds, i + 1);
        assert(ds.take(i + 1).drop_last() =~= ds.take(i));
    } else {
        assert(ds.take(i) =~= ds);
    }
}

proof fn lemma_count_branches_prefix(bs: Seq<Seq<DerivV>>, i: int)
    requires
        0 <= i <= bs.len(),
    ensures
        count_nts_branches(bs.take(i)) <= count_nts_branches(bs),
    decreases bs.len() - i,
{
    if i < bs.len() {
        lemma_count_branches_prefix(bs, i + 1);
        assert(bs.take(i + 1).drop_last() =~= bs.take(i));
    } else {
        assert(bs.take(i) =~= bs);
    }
}

/// The views of the branches of a split.
pub open spec fn branches_view(bs: Vec<Vec<GrammarDerivation>>) -> Seq<Seq<DerivV>> {
    Seq::new(bs@.len(), |i: int| derivs_view(bs@[i]))
}

proof fn lemma_split_view(bs: Vec<Vec<GrammarDerivation>>)
    ensures
        deriv_view(GrammarDerivation::Split { branches: bs }) == DerivV::Split(branches_view(bs)),
{
    assert(deriv_view(GrammarDerivation::Split { branches: bs })->Split_0 =~= branches_view(bs));
}

impl GrammarDerivation {
    /// The number of non-terminals in the tree; this is used for random mutation.
    pub fn count_all_nts(&self) -> (n: usize)
        requires
            count_nts_spec(deriv_view(*self)) <= usize::MAX,
        ensures
            n == count_nts_spec(deriv_view(*self)),
        decreases self,
    {
        match self {
            GrammarDerivation::NTLeaf(_) => 1,
            GrammarDerivation::TLeaf(_) => 0,
            GrammarDerivation::Branch { content, .. } => 1 + Self::count_all_in(content),
            GrammarDerivation::Wrapped { content, .. } => Self::count_all_in(content),
            GrammarDerivation::Split { branches } => {
                proof {
                    lemma_split_view(*branches);
                }
                let mut total: usize = 0;
                let mut i: usize = 0;
                while i < branches.len()
                    invariant
                        (*self) is Split,
                        (*self)->Split_branches == *branches,
                        i <= branches@.len(),
                        count_nts_branches(branches_view(*branches)) <= usize::MAX,
                        total == count_nts_branches(branches_view(*branches).take(i as int)),
                    decreases branches@.len() - i,
                {
                    proof {
                        assert((*self)->Split_branches == *branches);
                        assert(decreases_to!(*self => (*self)->Split_branches));
                        assert(decreases_to!(*branches => branches@));
                        assert(decreases_to!(branches@ => branches@[i as int]));
                        let bv = branches_view(*branches);
                        assert(bv.take(i + 1).drop_last() =~= bv.take(i as int));
                        assert(bv.take(i + 1)[i as int] == derivs_view(branches@[i as int]));
                        lemma_count_branches_prefix(bv, i + 1);
                    }
                    total = total + Self::count_all_in(&branches[i]);
                    i = i + 1;
                }
                proof {
                    assert(branches_view(*branches).take(i as int) =~= branches_view(*branches));
                }
                total
            },
        }
    }

    fn count_all_in(ds: &Vec<GrammarDerivation>) -> (n: usize)
        requires
            count_nts_seq(derivs_view(*ds)) <= usize::MAX,
        ensures
            n == count_nts_seq(derivs_view(*ds)),
        decreases ds,
    {
        let mut total: usize = 0;
        let mut i: usize = 0;
        while i < ds.len()
            invariant
                i <= ds@.len(),
                count_nts_seq(derivs_view(*ds)) <= usize::MAX,
                total == count_nts_seq(derivs_view(*ds).take(i as int)),
            decreases ds@.len() - i,
        {
            proof {
                assert(decreases_to!(*ds => ds@));
                assert(decreases_to!(ds@ => ds@[i as int]));
                lemma_derivs_take(*ds, i as int);
                lemma_count_seq_prefix(derivs_view(*ds), i + 1);
            }
            total = total + ds[i].count_all_nts();
            i = i + 1;
        }
        proof {
            assert(derivs_view(*ds).take(i as int) =~= derivs_view(*ds));
        }
        total
    }

    /// The non-terminal at the root, for a branch or an unexpanded leaf.
    pub fn get_nt_root(&self) -> (r: Option<&NonTerminal>)
        ensures
            (deriv_view(*self) is Branch || deriv_view(*self) is NTLeaf) <==> r is Some,
            deriv_view(*self) matches DerivV::Branch(nt, _) ==> r matches Some(x) && nt_view(*x)
                == nt,
            deriv_view(*self) matches DerivV::NTLeaf(nt) ==> r matches Some(x) && nt_view(*x) == nt,
    {
        match self {
            GrammarDerivation::Branch { nt, .. } => Some(nt),
            GrammarDerivation::NTLeaf(nt) => Some(nt),
            _ => None,
        }
    }

    pub fn is_nt_root(&self) -> (b: bool)
        ensures
            b <==> (deriv_view(*self) is Branch || deriv_view(*self) is NTLeaf),
    {
        self.get_nt_root().is_some()
    }
}

impl Clone for NonTerminal {
    fn clone(&self) -> (r: Self)
        ensures
            nt_view(r) == nt_view(*self),
    {
        match self {
            NonTerminal::Custom(s) => NonTerminal::Custom(s.clone()),
        }
    }
}

impl Default for Performer {
    fn default() -> (p: Self)
        ensures
            p.instrument == Instrument::Piano,
            p.volume == Volume(MAX_VOLUME / 2),
            p.pitch.spec_octave() == 4,
            p.pitch.spec_note_num() == 0,
    {
        Performer { instrument: Instrument::Piano, volume: Volume(MAX_VOLUME / 2), pitch: Pitch::middle_c() }
    }
}

/// The values of a list of results when every one of them succeeded, or else the error of
/// the first that failed; nothing after that one is looked at.
pub fn err_first<I, E>(results: Vec<Result<I, E>>) -> (r: Result<Vec<I>, E>)
    ensures
        r is Ok <==> forall|i: int| 0 <= i < results@.len() ==> #[trigger] results@[i] is Ok,
        r matches Ok(vals) ==> vals@.len() == results@.len() && forall|i: int|
            0 <= i < results@.len() ==> results@[i] == Ok::<I, E>(#[trigger] vals@[i]),
        r matches Err(e) ==> exists|i: int|
            0 <= i < results@.len() && results@[i] == Err::<I, E>(e) && forall|j: int|
                0 <= j < i ==> #[trigger] results@[j] is Ok,
{
    let ghost orig = results@;
    let mut rest = results;
    let mut vals: Vec<I> = Vec::new();
    while rest.len() > 0
        invariant
            orig == results@,
            vals@.len() + rest@.len() == orig.len(),
            rest@ == orig.skip(vals@.len() as int),
            forall|k: int| 0 <= k < vals@.len() ==> orig[k] == Ok::<I, E>(#[trigger] vals@[k]),
        decreases rest@.len(),
    {
        let ghost n = vals@.len() as int;
        let x = rest.remove(0);
        assert(x == orig[n]);
        match x {
            Ok(v) => {
                vals.push(v);
                assert(rest@ =~= orig.skip(vals@.len() as int));
            },
            Err(e) => {
                assert forall|j: int| 0 <= j < n implies #[trigger] orig[j] is Ok by {
                    assert(orig[j] == Ok::<I, E>(vals@[j]));
                }
                assert(orig[n] == Err::<I, E>(e));
                assert(!(orig[n] is Ok));
                return Err(e);
            },
        }
    }
    assert forall|i: int| 0 <= i < orig.len() implies #[trigger] orig[i] is Ok by {
        assert(orig[i] == Ok::<I, E>(vals@[i]));
    }
    Ok(vals)
}

} // verus!
