use vstd::prelude::*;
use rand::RngExt;
use crate::music_primitives::TimeSignature;
use crate::cfg::{
    DerivV,
    Grammar,
    GrammarDerivation,
    GrammarDerivationConfig,
    MusicPrimitive,
    MusicString,
    NonTerminal,
    PrimV,
    Production,
    Symbol,
    SymbolV,
    deriv_view,
    derivs_view,
    ms_view,
    nt_view,
    prim_view,
    production_view,
    symbol_view,
};

verus! {

/// The random number generator that drives grammar expansion.
#[verifier::external_type_specification]
#[verifier::external_body]
pub struct ExStdRng(rand::rngs::StdRng);

/// `rand::RngExt::random_range` over `0..n`, which draws a number uniformly from the range.
/// Claimed: the number is below `n`. Which number it is depends on the generator's state, and
/// is not stated. The range must not be empty: the call panics on an empty range.
#[verifier::external_body]
fn random_below(rng: &mut rand::rngs::StdRng, n: usize) -> (r: usize)
    requires
        n > 0,
    ensures
        r < n,
{
    rng.random_range(0..n)
}

/// The productions of a grammar, seen as values.
pub open spec fn prods_view(ps: Seq<Production>) -> Seq<(Seq<char>, Seq<PrimV>)> {
    ps.map_values(|p: Production| production_view(p))
}

/// Some production rewrites `nt`.
pub open spec fn has_production(g: Seq<(Seq<char>, Seq<PrimV>)>, nt: Seq<char>) -> bool {
    exists|j: int| 0 <= j < g.len() && (#[trigger] g[j]).0 == nt
}

/// The positions of the productions for `nt` among the first `n`, in order.
pub open spec fn production_positions(g: Seq<(Seq<char>, Seq<PrimV>)>, nt: Seq<char>, n: int) -> Seq<int>
    decreases n,
{
    if n <= 0 {
        Seq::empty()
    } else if g[n - 1].0 == nt {
        production_positions(g, nt, n - 1).push(n - 1)
    } else {
        production_positions(g, nt, n - 1)
    }
}

/// The positions of all the productions for `nt`, in order.
pub open spec fn productions_for(g: Seq<(Seq<char>, Seq<PrimV>)>, nt: Seq<char>) -> Seq<int> {
    production_positions(g, nt, g.len() as int)
}

/// The positions found among the first `m` productions stay the first ones found among more,
/// and each is a production for `nt` below `m`; there is one exactly when some production
/// below `m` is for `nt`.
proof fn lemma_production_positions(g: Seq<(Seq<char>, Seq<PrimV>)>, nt: Seq<char>, m: int, n: int)
    requires
        0 <= m <= n <= g.len(),
    ensures
        production_positions(g, nt, m).len() <= production_positions(g, nt, n).len(),
        forall|k: int|
            0 <= k < production_positions(g, nt, m).len() ==> #[trigger] production_positions(g, nt, n)[k]
                == production_positions(g, nt, m)[k],
        forall|k: int|
            0 <= k < production_positions(g, nt, n).len() ==> 0 <= #[trigger] production_positions(g, nt, n)[k]
                < n && g[production_positions(g, nt, n)[k]].0 == nt,
        production_positions(g, nt, n).len() > 0 <==> exists|j: int| 0 <= j < n && (#[trigger] g[j]).0 == nt,
    decreases n,
{
    if n > 0 {
        if m < n {
            lemma_production_positions(g, nt, m, n - 1);
        } else {
            lemma_production_positions(g, nt, n - 1, n - 1);
        }
        if exists|j: int| 0 <= j < n && (#[trigger] g[j]).0 == nt {
            let j = choose|j: int| 0 <= j < n && (#[trigger] g[j]).0 == nt;
            if j < n - 1 {
                assert(exists|i: int| 0 <= i < n - 1 && (#[trigger] g[i]).0 == nt);
            }
        }
        if production_positions(g, nt, n).len() > 0 && g[n - 1].0 != nt {
            let j = production_positions(g, nt, n - 1)[0];
            assert(g[j].0 == nt);
        }
    }
}

/// Two non-terminals are the same.
pub fn nt_eq(a: &NonTerminal, b: &NonTerminal) -> (r: bool)
    ensures
        r == (nt_view(*a) == nt_view(*b)),
{
    match (a, b) {
        (NonTerminal::Custom(x), NonTerminal::Custom(y)) => x.eq(y),
    }
}

pub fn clone_symbol(s: &Symbol) -> (r: Symbol)
    ensures
        symbol_view(r) == symbol_view(*s),
{
    match s {
        Symbol::NT(nt) => Symbol::NT(nt.clone()),
        Symbol::T(t) => Symbol::T(*t),
    }
}

/// A copy of a music primitive.
pub fn clone_prim(p: &MusicPrimitive) -> (r: MusicPrimitive)
    ensures
        prim_view(r) == prim_view(*p),
    decreases *p,
{
    match p {
        MusicPrimitive::Simple(s) => MusicPrimitive::Simple(clone_symbol(s)),
        MusicPrimitive::Split { branches } => {
            let mut nb: Vec<MusicString> = Vec::new();
            let mut i: usize = 0;
            while i < branches.len()
                invariant
                    (*p) is Split,
                    (*p)->Split_branches == *branches,
                    i <= branches@.len(),
                    nb@.len() == i,
                    forall|k: int| 0 <= k < i ==> ms_view(#[trigger] nb@[k]) == ms_view(branches@[k]),
                decreases branches@.len() - i,
            {
                proof {
                    assert(decreases_to!(*p => (*p)->Split_branches));
                    assert(decreases_to!(*branches => branches@));
                    assert(decreases_to!(branches@ => branches@[i as int]));
                }
                nb.push(clone_ms(&branches[i]));
                i = i + 1;
            }
            let r = MusicPrimitive::Split { branches: nb };
            proof {
                let a = prim_view(r);
                let b = prim_view(*p);
                assert(a->Split_0 =~= b->Split_0);
            }
            r
        },
        MusicPrimitive::Transform { transform, content } => MusicPrimitive::Transform {
            transform: *transform,
            content: clone_ms(content),
        },
    }
}

/// A copy of a music string.
pub fn clone_ms(ms: &MusicString) -> (r: MusicString)
    ensures
        ms_view(r) == ms_view(*ms),
    decreases *ms,
{
    let mut v: Vec<MusicPrimitive> = Vec::new();
    let mut i: usize = 0;
    while i < ms.0.len()
        invariant
            i <= ms.0@.len(),
            v@.len() == i,
            forall|k: int| 0 <= k < i ==> prim_view(#[trigger] v@[k]) == prim_view(ms.0@[k]),
        decreases ms.0@.len() - i,
    {
        proof {
            assert(decreases_to!(*ms => ms.0));
            assert(decreases_to!(ms.0 => ms.0@));
            assert(decreases_to!(ms.0@ => ms.0@[i as int]));
        }
        v.push(clone_prim(&ms.0[i]));
        i = i + 1;
    }
    let r = MusicString(v);
    assert(ms_view(r) =~= ms_view(*ms));
    r
}

impl Grammar {
    pub fn new(start: NonTerminal, productions: Vec<Production>, time_signature: TimeSignature) -> (g: Self)
        ensures
            g.start == start,
            g.productions == productions,
            g.time_signature == time_signature,
    {
        Grammar { start, productions, time_signature }
    }

    /// The first production for `nt`.
    pub fn get_production(&self, nt: &NonTerminal) -> (r: Option<&Production>)
        ensures
            r is Some <==> has_production(prods_view(self.productions@), nt_view(*nt)),
            r matches Some(p) ==> exists|j: int|
                0 <= j < self.productions@.len() && *p == self.productions@[j] && nt_view(p.0)
                    == nt_view(*nt) && forall|k: int|
                    0 <= k < j ==> nt_view((#[trigger] self.productions@[k]).0) != nt_view(*nt),
    {
        let mut i: usize = 0;
        while i < self.productions.len()
            invariant
                i <= self.productions@.len(),
                forall|k: int| 0 <= k < i ==> nt_view((#[trigger] self.productions@[k]).0) != nt_view(*nt),
            decreases self.productions@.len() - i,
        {
            if nt_eq(&self.productions[i].0, nt) {
                proof {
                    assert(prods_view(self.productions@)[i as int].0 == nt_view(*nt));
                }
                return Some(&self.productions[i]);
            }
            i = i + 1;
        }
        proof {
            assert forall|j: int| 0 <= j < prods_view(self.productions@).len() implies (
            #[trigger] prods_view(self.productions@)[j]).0 != nt_view(*nt) by {
                assert(prods_view(self.productions@)[j] == production_view(self.productions@[j]));
            }
        }
        None
    }

    /// The `k`-th production for `nt`, counting from 0 in the order of the grammar; `None`
    /// when `nt` has no more than `k` productions.
    pub fn get_production_at(&self, nt: &NonTerminal, k: usize) -> (r: Option<&Production>)
        ensures
            r is Some <==> k < productions_for(prods_view(self.productions@), nt_view(*nt)).len(),
            r matches Some(p) ==> *p == self.productions@[productions_for(
                prods_view(self.productions@),
                nt_view(*nt),
            )[k as int]],
    {
        let ghost g = prods_view(self.productions@);
        let ghost target = nt_view(*nt);
        let mut count: usize = 0;
        let mut i: usize = 0;
        while i < self.productions.len()
            invariant
                g == prods_view(self.productions@),
                target == nt_view(*nt),
                i <= self.productions@.len(),
                count == production_positions(g, target, i as int).len(),
                count <= k,
            decreases self.productions@.len() - i,
        {
            proof {
                lemma_production_positions(g, target, i as int, i as int);
                assert(g[i as int] == production_view(self.productions@[i as int]));
            }
            if nt_eq(&self.productions[i].0, nt) {
                if count == k {
                    proof {
                        lemma_production_positions(g, target, i + 1, g.len() as int);
                        assert(production_positions(g, target, i + 1)[k as int] == i);
                    }
                    return Some(&self.productions[i]);
                }
                count = count + 1;
            }
            i = i + 1;
        }
        None
    }

    /// A production for `nt` drawn at random among all productions for it; `None` when it
    /// has none. The draw picks an index below the number of its productions, and
    /// `get_production_at` gives the production at that index.
    pub fn get_production_random(&self, nt: &NonTerminal, rng: &mut rand::rngs::StdRng) -> (r: Option<&Production>)
        ensures
            r is Some <==> has_production(prods_view(self.productions@), nt_view(*nt)),
            r matches Some(p) ==> exists|k: int|
                0 <= k < productions_for(prods_view(self.productions@), nt_view(*nt)).len()
                    && *p == self.productions@[#[trigger] productions_for(
                    prods_view(self.productions@),
                    nt_view(*nt),
                )[k]],
            r matches Some(p) ==> exists|j: int|
                0 <= j < self.productions@.len() && *p == self.productions@[j] && nt_view(p.0)
                    == nt_view(*nt),
    {
        let ghost g = prods_view(self.productions@);
        let ghost target = nt_view(*nt);
        let n = self.count_productions(nt);
        proof {
            lemma_production_positions(g, target, g.len() as int, g.len() as int);
            if has_production(g, target) {
                let j = choose|j: int| 0 <= j < g.len() && (#[trigger] g[j]).0 == target;
                assert(0 <= j < g.len() && g[j].0 == target);
            }
        }
        if n == 0 {
            return None;
        }
        let pick = random_below(rng, n);
        let r = self.get_production_at(nt, pick);
        proof {
            let pos = productions_for(g, target);
            let j = pos[pick as int];
            assert(g[j] == production_view(self.productions@[j]));
            assert(g[j].0 == target);
        }
        r
    }

    /// The number of productions for `nt`.
    fn count_productions(&self, nt: &NonTerminal) -> (n: usize)
        ensures
            n == productions_for(prods_view(self.productions@), nt_view(*nt)).len(),
    {
        let ghost g = prods_view(self.productions@);
        let ghost target = nt_view(*nt);
        let mut count: usize = 0;
        let mut i: usize = 0;
        while i < self.productions.len()
            invariant
                g == prods_view(self.productions@),
                target == nt_view(*nt),
                i <= self.productions@.len(),
                count == production_positions(g, target, i as int).len(),
                count <= i,
            decreases self.productions@.len() - i,
        {
            proof {
                assert(g[i as int] == production_view(self.productions@[i as int]));
            }
            if nt_eq(&self.productions[i].0, nt) {
                count = count + 1;
            }
            i = i + 1;
        }
        count
    }
}


/// `q` can stand for the primitive `p` after one step of parallel rewriting with the
/// productions `g`: a non-terminal becomes the right side of one of its productions (nothing,
/// when it has none); a terminal stays; splits and transforms are rewritten inside.
pub open spec fn prim_rewrites(g: Seq<(Seq<char>, Seq<PrimV>)>, p: PrimV, q: Seq<PrimV>) -> bool
    decreases p, 0int,
{
    match p {
        PrimV::Simple(s) => match s {
            SymbolV::NT(nt) => if has_production(g, nt) {
                exists|j: int| 0 <= j < g.len() && (#[trigger] g[j]).0 == nt && q == g[j].1
            } else {
                q.len() == 0
            },
            SymbolV::T(_) => q == seq![p],
        },
        PrimV::Split(bs) => q.len() == 1 && match q[0] {
            PrimV::Split(cs) => cs.len() == bs.len() && forall|b: int|
                0 <= b < bs.len() ==> rewrites(g, #[trigger] bs[b], cs[b]),
            _ => false,
        },
        PrimV::Transform(t, c) => q.len() == 1 && match q[0] {
            PrimV::Transform(t2, c2) => t2 == t && rewrites(g, c, c2),
            _ => false,
        },
    }
}

/// `qs` can stand for the music string `ps` after one step of parallel rewriting: each
/// primitive rewritten, the results one after the other.
pub open spec fn rewrites(g: Seq<(Seq<char>, Seq<PrimV>)>, ps: Seq<PrimV>, qs: Seq<PrimV>) -> bool
    decreases ps, ps.len(),
{
    if ps.len() == 0 {
        qs.len() == 0
    } else {
        proof {
            assert(decreases_to!(ps => ps[ps.len() - 1]));
        }
        exists|k: int|
            0 <= k <= qs.len() && rewrites(g, ps.drop_last(), #[trigger] qs.take(k)) && prim_rewrites(
                g,
                ps[ps.len() - 1],
                qs.skip(k),
            )
    }
}

/// `qs` can stand for `ps` after `n` steps of parallel rewriting.
pub open spec fn rewrites_n(g: Seq<(Seq<char>, Seq<PrimV>)>, ps: Seq<PrimV>, qs: Seq<PrimV>, n: nat) -> bool
    decreases n,
{
    if n == 0 {
        qs == ps
    } else {
        exists|mid: Seq<PrimV>| rewrites_n(g, ps, mid, (n - 1) as nat) && #[trigger] rewrites(g, mid, qs)
    }
}

/// Every non-terminal in the primitive, nested ones included, has a production.
pub open spec fn prim_covered(g: Seq<(Seq<char>, Seq<PrimV>)>, p: PrimV) -> bool
    decreases p, 0int,
{
    match p {
        PrimV::Simple(s) => match s {
            SymbolV::NT(nt) => has_production(g, nt),
            SymbolV::T(_) => true,
        },
        PrimV::Split(bs) => forall|b: int| 0 <= b < bs.len() ==> covered(g, #[trigger] bs[b]),
        PrimV::Transform(_, c) => covered(g, c),
    }
}

/// Every non-terminal in the music string, nested ones included, has a production.
pub open spec fn covered(g: Seq<(Seq<char>, Seq<PrimV>)>, ps: Seq<PrimV>) -> bool
    decreases ps, 1int,
{
    forall|i: int| 0 <= i < ps.len() ==> prim_covered(g, #[trigger] ps[i])
}

proof fn lemma_split_covered(g: Seq<(Seq<char>, Seq<PrimV>)>, p: PrimV, k: int)
    requires
        prim_covered(g, p),
        p is Split,
        0 <= k < p->Split_0.len(),
    ensures
        covered(g, p->Split_0[k]),
{
    match p {
        PrimV::Split(bs) => {
            assert(covered(g, bs[k]));
        },
        _ => {},
    }
}

/// Every non-terminal on the right side of a production has a production.
pub open spec fn grammar_complete(g: Seq<(Seq<char>, Seq<PrimV>)>) -> bool {
    forall|j: int| 0 <= j < g.len() ==> covered(g, (#[trigger] g[j]).1)
}

/// The views of a vector of primitives.
pub open spec fn prims_view(v: Seq<MusicPrimitive>) -> Seq<PrimV> {
    v.map_values(|p: MusicPrimitive| prim_view(p))
}

proof fn lemma_ms_view(v: Vec<MusicPrimitive>)
    ensures
        ms_view(MusicString(v)) == prims_view(v@),
{
    assert(ms_view(MusicString(v)) =~= prims_view(v@));
}

/// With a grammar that has a production for every non-terminal its productions name, every
/// non-terminal of a rewritten music string has a production: rewriting such a string can go
/// on for ever without meeting an unknown non-terminal.
pub proof fn lemma_rewrites_covered(g: Seq<(Seq<char>, Seq<PrimV>)>, ps: Seq<PrimV>, qs: Seq<PrimV>)
    requires
        grammar_complete(g),
        rewrites(g, ps, qs),
    ensures
        covered(g, qs),
    decreases ps, ps.len(),
{
    if ps.len() > 0 {
        let k = choose|k: int|
            0 <= k <= qs.len() && rewrites(g, ps.drop_last(), #[trigger] qs.take(k)) && prim_rewrites(
                g,
                ps[ps.len() - 1],
                qs.skip(k),
            );
        assert(decreases_to!(ps => ps[ps.len() - 1]));
        lemma_rewrites_covered(g, ps.drop_last(), qs.take(k));
        lemma_prim_rewrites_covered(g, ps[ps.len() - 1], qs.skip(k));
        assert forall|i: int| 0 <= i < qs.len() implies prim_covered(g, #[trigger] qs[i]) by {
            if i < k {
                assert(qs.take(k)[i] == qs[i]);
            } else {
                assert(qs.skip(k)[i - k] == qs[i]);
            }
        }
    }
}

proof fn lemma_prim_rewrites_covered(g: Seq<(Seq<char>, Seq<PrimV>)>, p: PrimV, q: Seq<PrimV>)
    requires
        grammar_complete(g),
        prim_rewrites(g, p, q),
    ensures
        covered(g, q),
    decreases p, 0int,
{
    match p {
        PrimV::Simple(s) => match s {
            SymbolV::NT(nt) => {
                if has_production(g, nt) {
                    let j = choose|j: int| 0 <= j < g.len() && (#[trigger] g[j]).0 == nt && q == g[j].1;
                    assert(covered(g, g[j].1));
                }
            },
            SymbolV::T(_) => {},
        },
        PrimV::Split(bs) => {
            match q[0] {
                PrimV::Split(cs) => {
                    assert forall|b: int| 0 <= b < cs.len() implies covered(g, #[trigger] cs[b]) by {
                        assert(rewrites(g, bs[b], cs[b]));
                        lemma_rewrites_covered(g, bs[b], cs[b]);
                    }
                    assert(prim_covered(g, q[0]));
                },
                _ => {},
            }
        },
        PrimV::Transform(t, c) => {
            match q[0] {
                PrimV::Transform(t2, c2) => {
                    lemma_rewrites_covered(g, c, c2);
                    assert(prim_covered(g, q[0]));
                },
                _ => {},
            }
        },
    }
}

impl MusicString {
    /// Rewrite every non-terminal with a production of the grammar chosen at random, all at
    /// once; inside splits and transforms too. A non-terminal with no production is dropped;
    /// with `panic_on_bad_production` every non-terminal must have one.
    pub fn parallel_rewrite(&self, grammar: &Grammar, rng: &mut rand::rngs::StdRng, panic_on_bad_production: bool) -> (r: MusicString)
        requires
            panic_on_bad_production ==> covered(prods_view(grammar.productions@), ms_view(*self)),
        ensures
            rewrites(prods_view(grammar.productions@), ms_view(*self), ms_view(r)),
        decreases *self,
    {
        let ghost g = prods_view(grammar.productions@);
        let ghost ps = ms_view(*self);
        let mut new_string: Vec<MusicPrimitive> = Vec::new();
        let mut i: usize = 0;
        assert(ps.take(0) =~= Seq::<PrimV>::empty());
        while i < self.0.len()
            invariant
                g == prods_view(grammar.productions@),
                ps == ms_view(*self),
                ps.len() == self.0@.len(),
                i <= ps.len(),
                panic_on_bad_production ==> covered(g, ps),
                rewrites(g, ps.take(i as int), prims_view(new_string@)),
            decreases ps.len() - i,
        {
            let ghost before = prims_view(new_string@);
            let ghost p = ps[i as int];
            proof {
                assert(decreases_to!(*self => self.0));
                assert(decreases_to!(self.0 => self.0@));
                assert(decreases_to!(self.0@ => self.0@[i as int]));
                assert(p == prim_view(self.0@[i as int]));
            }
            match &self.0[i] {
                MusicPrimitive::Simple(x) => match x {
                    Symbol::NT(nt) => {
                        match grammar.get_production_random(nt, rng) {
                            Some(prod) => {
                                let ms = clone_ms(&prod.1);
                                proof {
                                    lemma_ms_view(ms.0);
                                    let j = choose|j: int|
                                        0 <= j < grammar.productions@.len() && *prod
                                            == grammar.productions@[j] && nt_view(prod.0) == nt_view(*nt);
                                    assert(g[j] == production_view(grammar.productions@[j]));
                                }
                                let mut more = ms.0;
                                new_string.append(&mut more);
                                assert(prims_view(new_string@).skip(before.len() as int) =~= ms_view(prod.1));
                                proof {
                                    let j = choose|j: int|
                                        0 <= j < grammar.productions@.len() && *prod
                                            == grammar.productions@[j] && nt_view(prod.0) == nt_view(*nt);
                                    assert(g[j] == production_view(grammar.productions@[j]));
                                    assert(g[j].0 == nt_view(*nt) && prims_view(new_string@).skip(before.len() as int) == g[j].1);
                                    assert(has_production(g, nt_view(*nt)));
                                    assert(prim_rewrites(g, p, prims_view(new_string@).skip(before.len() as int)));
                                }
                            },
                            None => {
                                assert(prims_view(new_string@).skip(before.len() as int) =~= Seq::<PrimV>::empty());
                                assert(prim_rewrites(g, p, prims_view(new_string@).skip(before.len() as int)));
                            },
                        }
                    },
                    Symbol::T(t) => {
                        new_string.push(MusicPrimitive::Simple(Symbol::T(*t)));
                        assert(prims_view(new_string@).skip(before.len() as int) =~= seq![p]);
                        assert(prim_rewrites(g, p, prims_view(new_string@).skip(before.len() as int)));
                    },
                },
                MusicPrimitive::Split { branches } => {
                    let ghost bs = Seq::new(
                        branches@.len(),
                        |b: int|
                            if 0 <= b < branches@.len() {
                                ms_view(branches@[b])
                            } else {
                                Seq::empty()
                            },
                    );
                    proof {
                        assert(p->Split_0 =~= bs);
                    }
                    let mut nb: Vec<MusicString> = Vec::new();
                    let mut b: usize = 0;
                    while b < branches.len()
                        invariant
                            i < self.0@.len(),
                            self.0@[i as int] is Split,
                            self.0@[i as int]->Split_branches == *branches,
                            p == PrimV::Split(bs),
                            bs.len() == branches@.len(),
                            forall|k: int| 0 <= k < branches@.len() ==> #[trigger] bs[k] == ms_view(branches@[k]),
                            g == prods_view(grammar.productions@),
                            panic_on_bad_production ==> prim_covered(g, p),
                            b <= branches@.len(),
                            nb@.len() == b,
                            forall|k: int| 0 <= k < b ==> rewrites(g, bs[k], ms_view(#[trigger] nb@[k])),
                        decreases branches@.len() - b,
                    {
                        proof {
                            assert(decreases_to!(*self => self.0));
                            assert(decreases_to!(self.0 => self.0@));
                            assert(decreases_to!(self.0@ => self.0@[i as int]));
                            assert(decreases_to!(self.0@[i as int] => self.0@[i as int]->Split_branches));
                            assert(decreases_to!(*branches => branches@));
                            assert(decreases_to!(branches@ => branches@[b as int]));
                            if panic_on_bad_production {
                                lemma_split_covered(g, p, b as int);
                                assert(covered(g, bs[b as int]));
                            }
                        }
                        let rewritten = branches[b].parallel_rewrite(grammar, rng, panic_on_bad_production);
                        nb.push(rewritten);
                        b = b + 1;
                    }
                    let q = MusicPrimitive::Split { branches: nb };
                    proof {
                        let qv = prim_view(q);
                        assert(forall|k: int| 0 <= k < bs.len() ==> (#[trigger] qv->Split_0[k]) == ms_view(nb@[k]));
                    }
                    new_string.push(q);
                    assert(prims_view(new_string@).skip(before.len() as int) =~= seq![prim_view(q)]);
                    proof {
                        let qv = prim_view(q);
                        assert forall|k: int| 0 <= k < bs.len() implies rewrites(g, #[trigger] bs[k], qv->Split_0[k]) by {
                            assert(qv->Split_0[k] == ms_view(nb@[k]));
                        }
                        assert(prim_rewrites(g, p, prims_view(new_string@).skip(before.len() as int)));
                    }
                },
                MusicPrimitive::Transform { transform, content } => {
                    let new_content = content.parallel_rewrite(grammar, rng, panic_on_bad_production);
                    let q = MusicPrimitive::Transform { transform: *transform, content: new_content };
                    new_string.push(q);
                    assert(prims_view(new_string@).skip(before.len() as int) =~= seq![prim_view(q)]);
                    assert(prim_rewrites(g, p, prims_view(new_string@).skip(before.len() as int)));
                },
            }
            proof {
                let after = prims_view(new_string@);
                assert(after.take(before.len() as int) =~= before);
                assert(ps.take(i + 1).drop_last() =~= ps.take(i as int));
                assert(ps.take(i + 1)[i as int] == p);
            }
            i = i + 1;
        }
        assert(ps.take(i as int) =~= ps);
        proof {
            lemma_ms_view(new_string);
        }
        MusicString(new_string)
    }

    /// `n` steps of parallel rewriting.
    pub fn parallel_rewrite_n(&self, grammar: &Grammar, rng: &mut rand::rngs::StdRng, panic_on_bad_production: bool, n: usize) -> (r: MusicString)
        requires
            panic_on_bad_production ==> grammar_complete(prods_view(grammar.productions@)) && covered(
                prods_view(grammar.productions@),
                ms_view(*self),
            ),
        ensures
            rewrites_n(prods_view(grammar.productions@), ms_view(*self), ms_view(r), n as nat),
    {
        let ghost g = prods_view(grammar.productions@);
        let mut new_string = clone_ms(self);
        let mut i: usize = 0;
        while i < n
            invariant
                g == prods_view(grammar.productions@),
                i <= n,
                rewrites_n(g, ms_view(*self), ms_view(new_string), i as nat),
                panic_on_bad_production ==> grammar_complete(g) && covered(g, ms_view(new_string)),
            decreases n - i,
        {
            let next = new_string.parallel_rewrite(grammar, rng, panic_on_bad_production);
            proof {
                if panic_on_bad_production {
                    lemma_rewrites_covered(g, ms_view(new_string), ms_view(next));
                }
                assert(rewrites_n(g, ms_view(*self), ms_view(new_string), i as nat) && rewrites(g, ms_view(new_string), ms_view(next)));
            }
            new_string = next;
            i = i + 1;
        }
        new_string
    }
}

impl Grammar {
    /// The music of the grammar: its start symbol rewritten `config.iterations` times.
    pub fn produce(&self, config: &GrammarDerivationConfig, rng: &mut rand::rngs::StdRng) -> (r: MusicString)
        requires
            config.panic_on_bad_production ==> grammar_complete(prods_view(self.productions@))
                && has_production(prods_view(self.productions@), nt_view(self.start)),
        ensures
            rewrites_n(
                prods_view(self.productions@),
                seq![PrimV::Simple(SymbolV::NT(nt_view(self.start)))],
                ms_view(r),
                config.iterations as nat,
            ),
    {
        let mut v: Vec<MusicPrimitive> = Vec::new();
        v.push(MusicPrimitive::Simple(Symbol::NT(self.start.clone())));
        let start_string = MusicString(v);
        proof {
            lemma_ms_view(v);
            assert(prims_view(v@) =~= seq![PrimV::Simple(SymbolV::NT(nt_view(self.start)))]);
        }
        start_string.parallel_rewrite_n(self, rng, config.panic_on_bad_production, config.iterations)
    }
}


impl Clone for Production {
    fn clone(&self) -> (r: Self)
        ensures
            production_view(r) == production_view(*self),
    {
        Production(self.0.clone(), clone_ms(&self.1))
    }
}

impl Clone for Grammar {
    fn clone(&self) -> (r: Self)
        ensures
            nt_view(r.start) == nt_view(self.start),
            prods_view(r.productions@) == prods_view(self.productions@),
            r.time_signature == self.time_signature,
    {
        let mut ps: Vec<Production> = Vec::new();
        let mut i: usize = 0;
        while i < self.productions.len()
            invariant
                i <= self.productions@.len(),
                ps@.len() == i,
                prods_view(ps@) == prods_view(self.productions@).take(i as int),
            decreases self.productions@.len() - i,
        {
            let p = self.productions[i].clone();
            let ghost before = ps@;
            assert(production_view(p) == production_view(self.productions@[i as int]));
            ps.push(p);
            assert forall|k: int| 0 <= k <= i implies #[trigger] prods_view(ps@)[k] == prods_view(
                self.productions@,
            ).take(i + 1)[k] by {
                if k < i {
                    assert(ps@[k] == before[k]);
                    assert(prods_view(before)[k] == prods_view(self.productions@).take(i as int)[k]);
                }
            }
            assert(prods_view(ps@) =~= prods_view(self.productions@).take(i + 1));
            i = i + 1;
        }
        assert(prods_view(self.productions@).take(i as int) =~= prods_view(self.productions@));
        Grammar { start: self.start.clone(), productions: ps, time_signature: self.time_signature }
    }
}

/// The derivation leaf of a primitive: a non-terminal becomes an unexpanded leaf, a
/// terminal a leaf; splits and transforms keep their shape with leaves inside.
pub open spec fn leaf_of(p: PrimV) -> DerivV
    decreases p, 0int,
{
    match p {
        PrimV::Simple(s) => match s {
            SymbolV::NT(nt) => DerivV::NTLeaf(nt),
            SymbolV::T(t) => DerivV::TLeaf(t),
        },
        PrimV::Split(bs) => DerivV::Split(
            Seq::new(
                bs.len(),
                |b: int|
                    if 0 <= b < bs.len() {
                        leaves_of(bs[b])
                    } else {
                        Seq::empty()
                    },
            ),
        ),
        PrimV::Transform(t, c) => DerivV::Wrapped(t, leaves_of(c)),
    }
}

/// The derivation leaves of a music string.
pub open spec fn leaves_of(ps: Seq<PrimV>) -> Seq<DerivV>
    decreases ps, 1int,
{
    Seq::new(
        ps.len(),
        |i: int|
            if 0 <= i < ps.len() {
                leaf_of(ps[i])
            } else {
                DerivV::NTLeaf(Seq::empty())
            },
    )
}

/// The derivation with every branch at or below depth `max` collapsed into an unexpanded
/// leaf of its non-terminal. Only branches count toward the depth.
pub open spec fn pruned(d: DerivV, depth: int, max: int) -> DerivV
    decreases d,
{
    match d {
        DerivV::Branch(nt, c) => if depth >= max {
            DerivV::NTLeaf(nt)
        } else {
            DerivV::Branch(
                nt,
                Seq::new(
                    c.len(),
                    |i: int|
                        if 0 <= i < c.len() {
                            pruned(c[i], depth + 1, max)
                        } else {
                            DerivV::NTLeaf(Seq::empty())
                        },
                ),
            )
        },
        DerivV::Wrapped(t, c) => DerivV::Wrapped(
            t,
            Seq::new(
                c.len(),
                |i: int|
                    if 0 <= i < c.len() {
                        pruned(c[i], depth, max)
                    } else {
                        DerivV::NTLeaf(Seq::empty())
                    },
            ),
        ),
        DerivV::Split(bs) => DerivV::Split(
            Seq::new(
                bs.len(),
                |b: int|
                    if 0 <= b < bs.len() {
                        Seq::new(
                            bs[b].len(),
                            |i: int|
                                if 0 <= i < bs[b].len() {
                                    pruned(bs[b][i], depth, max)
                                } else {
                                    DerivV::NTLeaf(Seq::empty())
                                },
                        )
                    } else {
                        Seq::empty()
                    },
            ),
        ),
        DerivV::NTLeaf(_) => d,
        DerivV::TLeaf(_) => d,
    }
}

/// Builds grammar derivations at random from a grammar.
pub struct GrammarDerivationGenerator {
    pub config: GrammarDerivationConfig,
    pub grammar: std::sync::Arc<Grammar>,
}

/// The leaves of a vector of primitives.
fn leaves_exec(ps: &Vec<MusicPrimitive>) -> (r: Vec<GrammarDerivation>)
    ensures
        derivs_view(r) == leaves_of(prims_view(ps@)),
    decreases ps,
{
    let mut r: Vec<GrammarDerivation> = Vec::new();
    let mut i: usize = 0;
    while i < ps.len()
        invariant
            i <= ps@.len(),
            r@.len() == i,
            forall|k: int| 0 <= k < i ==> deriv_view(#[trigger] r@[k]) == leaf_of(prim_view(ps@[k])),
        decreases ps@.len() - i,
    {
        proof {
            assert(decreases_to!(ps => ps@));
            assert(decreases_to!(ps@ => ps@[i as int]));
        }
        r.push(leaf_exec(&ps[i]));
        i = i + 1;
    }
    assert(derivs_view(r) =~= leaves_of(prims_view(ps@)));
    r
}

/// The leaf of one primitive.
fn leaf_exec(mp: &MusicPrimitive) -> (r: GrammarDerivation)
    ensures
        deriv_view(r) == leaf_of(prim_view(*mp)),
    decreases mp,
{
    match mp {
        MusicPrimitive::Simple(Symbol::NT(nt)) => GrammarDerivation::NTLeaf(nt.clone()),
        MusicPrimitive::Simple(Symbol::T(t)) => GrammarDerivation::TLeaf(*t),
        MusicPrimitive::Split { branches } => {
            let mut nb: Vec<Vec<GrammarDerivation>> = Vec::new();
            let mut b: usize = 0;
            while b < branches.len()
                invariant
                    (*mp) is Split,
                    (*mp)->Split_branches == *branches,
                    b <= branches@.len(),
                    nb@.len() == b,
                    forall|k: int|
                        0 <= k < b ==> derivs_view(#[trigger] nb@[k]) == leaves_of(ms_view(branches@[k])),
                decreases branches@.len() - b,
            {
                proof {
                    assert(decreases_to!(*mp => (*mp)->Split_branches));
                    assert(decreases_to!(*branches => branches@));
                    assert(decreases_to!(branches@ => branches@[b as int]));
                    assert(decreases_to!(branches@[b as int] => branches@[b as int].0));
                    lemma_ms_view(branches@[b as int].0);
                }
                nb.push(leaves_exec(&branches[b].0));
                b = b + 1;
            }
            let r = GrammarDerivation::Split { branches: nb };
            proof {
                let a = deriv_view(r);
                let c = leaf_of(prim_view(*mp));
                assert(a->Split_0 =~= c->Split_0);
            }
            r
        },
        MusicPrimitive::Transform { transform, content } => {
            proof {
                lemma_ms_view(content.0);
            }
            GrammarDerivation::Wrapped { transform: *transform, content: leaves_exec(&content.0) }
        },
    }
}

impl GrammarDerivationGenerator {
    pub fn new(config: GrammarDerivationConfig, grammar: &Grammar) -> (r: Self)
        ensures
            r.config == config,
            nt_view(r.grammar.start) == nt_view(grammar.start),
            prods_view(r.grammar.productions@) == prods_view(grammar.productions@),
            r.grammar.time_signature == grammar.time_signature,
    {
        GrammarDerivationGenerator { config, grammar: std::sync::Arc::new(grammar.clone()) }
    }

    /// The derivation leaf of a primitive.
    pub fn make_music_primitive_leaf(&self, mp: &MusicPrimitive) -> (r: GrammarDerivation)
        ensures
            deriv_view(r) == leaf_of(prim_view(*mp)),
    {
        leaf_exec(mp)
    }

    /// Collapse every branch deeper than `max_depth` into an unexpanded leaf.
    pub fn prune(&self, derivation: &mut GrammarDerivation)
        ensures
            deriv_view(*final(derivation)) == pruned(deriv_view(*old(derivation)), 0, self.config.max_depth as int),
    {
        self.prune_at(derivation, 0);
    }

    pub fn prune_at(&self, derivation: &mut GrammarDerivation, depth: usize)
        ensures
            deriv_view(*final(derivation)) == pruned(deriv_view(*old(derivation)), depth as int, self.config.max_depth as int),
    {
        let p = pruned_exec(derivation, depth, self.config.max_depth);
        *derivation = p;
    }
}

/// A copy of the derivation with every branch at or below depth `max` collapsed.
fn pruned_exec(d: &GrammarDerivation, depth: usize, max: usize) -> (r: GrammarDerivation)
    ensures
        deriv_view(r) == pruned(deriv_view(*d), depth as int, max as int),
    decreases d,
{
    match d {
        GrammarDerivation::Branch { nt, content } => {
            if depth >= max {
                return GrammarDerivation::NTLeaf(nt.clone());
            }
            let mut nc: Vec<GrammarDerivation> = Vec::new();
            let mut i: usize = 0;
            while i < content.len()
                invariant
                    (*d) is Branch,
                    (*d)->Branch_content == *content,
                    depth < max,
                    i <= content@.len(),
                    nc@.len() == i,
                    forall|k: int|
                        0 <= k < i ==> deriv_view(#[trigger] nc@[k]) == pruned(deriv_view(content@[k]), depth + 1, max as int),
                decreases content@.len() - i,
            {
                proof {
                    assert(decreases_to!(*d => (*d)->Branch_content));
                    assert(decreases_to!(*content => content@));
                    assert(decreases_to!(content@ => content@[i as int]));
                }
                nc.push(pruned_exec(&content[i], depth + 1, max));
                i = i + 1;
            }
            let r = GrammarDerivation::Branch { nt: nt.clone(), content: nc };
            proof {
                let a = deriv_view(r);
                let e = pruned(deriv_view(*d), depth as int, max as int);
                assert(a->Branch_1 =~= e->Branch_1);
            }
            r
        },
        GrammarDerivation::Wrapped { transform, content } => {
            let mut nc: Vec<GrammarDerivation> = Vec::new();
            let mut i: usize = 0;
            while i < content.len()
                invariant
                    (*d) is Wrapped,
                    (*d)->Wrapped_content == *content,
                    i <= content@.len(),
                    nc@.len() == i,
                    forall|k: int|
                        0 <= k < i ==> deriv_view(#[trigger] nc@[k]) == pruned(deriv_view(content@[k]), depth as int, max as int),
                decreases content@.len() - i,
            {
                proof {
                    assert(decreases_to!(*d => (*d)->Wrapped_content));
                    assert(decreases_to!(*content => content@));
                    assert(decreases_to!(content@ => content@[i as int]));
                }
                nc.push(pruned_exec(&content[i], depth, max));
                i = i + 1;
            }
            let r = GrammarDerivation::Wrapped { transform: *transform, content: nc };
            proof {
                let a = deriv_view(r);
                let e = pruned(deriv_view(*d), depth as int, max as int);
                assert(a->Wrapped_1 =~= e->Wrapped_1);
            }
            r
        },
        GrammarDerivation::Split { branches } => {
            let mut nb: Vec<Vec<GrammarDerivation>> = Vec::new();
            let mut b: usize = 0;
            while b < branches.len()
                invariant
                    (*d) is Split,
                    (*d)->Split_branches == *branches,
                    b <= branches@.len(),
                    nb@.len() == b,
                    forall|k: int| 0 <= k < b ==> (#[trigger] nb@[k])@.len() == branches@[k]@.len(),
                    forall|k: int, j: int|
                        0 <= k < b && 0 <= j < branches@[k]@.len() ==> deriv_view(#[trigger] nb@[k]@[j])
                            == pruned(deriv_view(branches@[k]@[j]), depth as int, max as int),
                decreases branches@.len() - b,
            {
                let mut nc: Vec<GrammarDerivation> = Vec::new();
                let mut i: usize = 0;
                while i < branches[b].len()
                    invariant
                        (*d) is Split,
                        (*d)->Split_branches == *branches,
                        b < branches@.len(),
                        i <= branches@[b as int]@.len(),
                        nc@.len() == i,
                        forall|k: int|
                            0 <= k < i ==> deriv_view(#[trigger] nc@[k]) == pruned(
                                deriv_view(branches@[b as int]@[k]),
                                depth as int,
                                max as int,
                            ),
                    decreases branches@[b as int]@.len() - i,
                {
                    proof {
                        assert(decreases_to!(*d => (*d)->Split_branches));
                        assert(decreases_to!(*branches => branches@));
                        assert(decreases_to!(branches@ => branches@[b as int]));
                        assert(decreases_to!(branches@[b as int] => branches@[b as int]@));
                        assert(decreases_to!(branches@[b as int]@ => branches@[b as int]@[i as int]));
                    }
                    nc.push(pruned_exec(&branches[b][i], depth, max));
                    i = i + 1;
                }
                nb.push(nc);
                b = b + 1;
            }
            let r = GrammarDerivation::Split { branches: nb };
            proof {
                let a = deriv_view(r);
                let e = pruned(deriv_view(*d), depth as int, max as int);
                assert forall|k: int| 0 <= k < branches@.len() implies (#[trigger] a->Split_0[k]) =~= e->Split_0[k] by {
                    assert(a->Split_0[k] == derivs_view(nb@[k]));
                }
                assert(a->Split_0 =~= e->Split_0);
            }
            r
        },
        GrammarDerivation::NTLeaf(nt) => GrammarDerivation::NTLeaf(nt.clone()),
        GrammarDerivation::TLeaf(t) => GrammarDerivation::TLeaf(*t),
    }
}


/// The productions of the generator's grammar.
pub open spec fn gen_prods(gen: GrammarDerivationGenerator) -> Seq<(Seq<char>, Seq<PrimV>)> {
    prods_view(gen.grammar.productions@)
}

/// `d` is what expanding the non-terminal `nt` gives: a branch for `nt` holding the leaves
/// of one of its productions, or `nt` left unexpanded when it has none.
pub open spec fn nt_expansion(g: Seq<(Seq<char>, Seq<PrimV>)>, nt: Seq<char>, d: DerivV) -> bool {
    if has_production(g, nt) {
        exists|j: int|
            0 <= j < g.len() && (#[trigger] g[j]).0 == nt && d == DerivV::Branch(nt, leaves_of(g[j].1))
    } else {
        d == DerivV::NTLeaf(nt)
    }
}

/// Every non-terminal of the derivation, branches and unexpanded leaves, has a production.
pub open spec fn nts_covered(g: Seq<(Seq<char>, Seq<PrimV>)>, d: DerivV) -> bool
    decreases d, 0int,
{
    match d {
        DerivV::Branch(nt, c) => has_production(g, nt) && all_covered(g, c),
        DerivV::Wrapped(_, c) => all_covered(g, c),
        DerivV::Split(bs) => forall|b: int| 0 <= b < bs.len() ==> all_covered(g, #[trigger] bs[b]),
        DerivV::NTLeaf(nt) => has_production(g, nt),
        DerivV::TLeaf(_) => true,
    }
}

/// Every non-terminal of the derivations has a production.
pub open spec fn all_covered(g: Seq<(Seq<char>, Seq<PrimV>)>, c: Seq<DerivV>) -> bool
    decreases c, 1int,
{
    forall|i: int| 0 <= i < c.len() ==> nts_covered(g, #[trigger] c[i])
}

/// `e` is `d` with every unexpanded leaf expanded once.
pub open spec fn expanded_once(g: Seq<(Seq<char>, Seq<PrimV>)>, d: DerivV, e: DerivV) -> bool
    decreases d, 0int,
{
    match d {
        DerivV::NTLeaf(nt) => nt_expansion(g, nt, e),
        DerivV::TLeaf(_) => e == d,
        DerivV::Branch(nt, c) => e is Branch && e->Branch_0 == nt && all_expanded_once(g, c, e->Branch_1),
        DerivV::Wrapped(t, c) => e is Wrapped && e->Wrapped_0 == t && all_expanded_once(g, c, e->Wrapped_1),
        DerivV::Split(bs) => e is Split && e->Split_0.len() == bs.len() && forall|b: int|
            0 <= b < bs.len() ==> all_expanded_once(g, #[trigger] bs[b], e->Split_0[b]),
    }
}

/// Each of `c2` is the matching one of `c` with its unexpanded leaves expanded once.
pub open spec fn all_expanded_once(g: Seq<(Seq<char>, Seq<PrimV>)>, c: Seq<DerivV>, c2: Seq<DerivV>) -> bool
    decreases c, 1int,
{
    c2.len() == c.len() && forall|i: int| 0 <= i < c.len() ==> expanded_once(g, #[trigger] c[i], c2[i])
}

proof fn lemma_covered_parts(g: Seq<(Seq<char>, Seq<PrimV>)>, d: DerivV)
    requires
        nts_covered(g, d),
    ensures
        d is Branch ==> has_production(g, d->Branch_0) && all_covered(g, d->Branch_1),
        d is Wrapped ==> all_covered(g, d->Wrapped_1),
        d is Split ==> forall|b: int| 0 <= b < d->Split_0.len() ==> all_covered(g, #[trigger] d->Split_0[b]),
        d is NTLeaf ==> has_production(g, d->NTLeaf_0),
{
    match d {
        DerivV::Split(bs) => {
            assert forall|b: int| 0 <= b < bs.len() implies all_covered(g, #[trigger] bs[b]) by {}
        },
        _ => {},
    }
}

proof fn lemma_expanded_parts(g: Seq<(Seq<char>, Seq<PrimV>)>, d: DerivV, e: DerivV)
    requires
        d is Branch ==> e is Branch && e->Branch_0 == d->Branch_0 && all_expanded_once(g, d->Branch_1, e->Branch_1),
        d is Wrapped ==> e is Wrapped && e->Wrapped_0 == d->Wrapped_0 && all_expanded_once(g, d->Wrapped_1, e->Wrapped_1),
        d is Split ==> e is Split && e->Split_0.len() == d->Split_0.len() && forall|b: int|
            0 <= b < d->Split_0.len() ==> all_expanded_once(g, #[trigger] d->Split_0[b], e->Split_0[b]),
        d is NTLeaf ==> nt_expansion(g, d->NTLeaf_0, e),
        d is TLeaf ==> e == d,
    ensures
        expanded_once(g, d, e),
{
    match d {
        DerivV::Split(bs) => {
            assert forall|b: int| 0 <= b < bs.len() implies all_expanded_once(g, #[trigger] bs[b], e->Split_0[b]) by {}
        },
        _ => {},
    }
}

proof fn lemma_all_expanded(g: Seq<(Seq<char>, Seq<PrimV>)>, c: Seq<DerivV>, c2: Seq<DerivV>)
    requires
        c2.len() == c.len(),
        forall|i: int| 0 <= i < c.len() ==> expanded_once(g, #[trigger] c[i], c2[i]),
    ensures
        all_expanded_once(g, c, c2),
{
}

proof fn lemma_all_covered(g: Seq<(Seq<char>, Seq<PrimV>)>, c: Seq<DerivV>, i: int)
    requires
        all_covered(g, c),
        0 <= i < c.len(),
    ensures
        nts_covered(g, c[i]),
{
}

impl GrammarDerivationGenerator {
    /// Expand a non-terminal: a branch for it holding the leaves of one of its productions,
    /// drawn at random; the non-terminal left as an unexpanded leaf when it has none.
    pub fn expand_nonterminal(&self, nt: &NonTerminal, rng: &mut rand::rngs::StdRng) -> (r: GrammarDerivation)
        requires
            self.config.panic_on_bad_production ==> has_production(gen_prods(*self), nt_view(*nt)),
        ensures
            nt_expansion(gen_prods(*self), nt_view(*nt), deriv_view(r)),
    {
        let production = self.grammar.get_production_random(nt, rng);
        match production {
            Some(prod) => {
                proof {
                    lemma_ms_view(prod.1.0);
                }
                let content = leaves_exec(&prod.1.0);
                let r = GrammarDerivation::Branch { nt: nt.clone(), content };
                proof {
                    let j = choose|j: int|
                        0 <= j < self.grammar.productions@.len() && *prod == self.grammar.productions@[j]
                            && nt_view(prod.0) == nt_view(*nt);
                    assert(gen_prods(*self)[j] == production_view(self.grammar.productions@[j]));
                    assert(deriv_view(r) == DerivV::Branch(nt_view(*nt), leaves_of(gen_prods(*self)[j].1)));
                }
                r
            },
            None => GrammarDerivation::NTLeaf(nt.clone()),
        }
    }
}


impl GrammarDerivationGenerator {
    fn expand_children(&self, content: &Vec<GrammarDerivation>, rng: &mut rand::rngs::StdRng) -> (r: Vec<GrammarDerivation>)
        requires
            self.config.panic_on_bad_production ==> all_covered(gen_prods(*self), derivs_view(*content)),
        ensures
            all_expanded_once(gen_prods(*self), derivs_view(*content), derivs_view(r)),
        decreases content, 1int,
    {
        let ghost gp = gen_prods(*self);
        let mut nc: Vec<GrammarDerivation> = Vec::new();
        let mut i: usize = 0;
        while i < content.len()
            invariant
                gp == gen_prods(*self),
                self.config.panic_on_bad_production ==> all_covered(gp, derivs_view(*content)),
                i <= content@.len(),
                nc@.len() == i,
                forall|k: int| 0 <= k < i ==> expanded_once(gp, deriv_view(content@[k]), deriv_view(#[trigger] nc@[k])),
            decreases content@.len() - i,
        {
            proof {
                assert(decreases_to!(content => content@));
                assert(decreases_to!(content@ => content@[i as int]));
                assert(derivs_view(*content)[i as int] == deriv_view(content@[i as int]));
                if self.config.panic_on_bad_production {
                    lemma_all_covered(gp, derivs_view(*content), i as int);
                }
            }
            nc.push(self.expand_once_exec(&content[i], rng));
            i = i + 1;
        }
        proof {
            assert forall|k: int| 0 <= k < derivs_view(*content).len() implies expanded_once(
                gp,
                #[trigger] derivs_view(*content)[k],
                derivs_view(nc)[k],
            ) by {
                assert(derivs_view(*content)[k] == deriv_view(content@[k]));
                assert(derivs_view(nc)[k] == deriv_view(nc@[k]));
            }
            lemma_all_expanded(gp, derivs_view(*content), derivs_view(nc));
        }
        nc
    }

    fn expand_once_exec(&self, d: &GrammarDerivation, rng: &mut rand::rngs::StdRng) -> (r: GrammarDerivation)
        requires
            self.config.panic_on_bad_production ==> nts_covered(gen_prods(*self), deriv_view(*d)),
        ensures
            expanded_once(gen_prods(*self), deriv_view(*d), deriv_view(r)),
        decreases d, 0int,
    {
        let ghost gp = gen_prods(*self);
        let ghost dv = deriv_view(*d);
        proof {
            if self.config.panic_on_bad_production {
                lemma_covered_parts(gp, dv);
            }
        }
        let r = match d {
            GrammarDerivation::NTLeaf(nt) => self.expand_nonterminal(nt, rng),
            GrammarDerivation::TLeaf(t) => GrammarDerivation::TLeaf(*t),
            GrammarDerivation::Branch { nt, content } => {
                proof {
                    assert(decreases_to!(*d => (*d)->Branch_content));
                }
                let nc = self.expand_children(content, rng);
                GrammarDerivation::Branch { nt: nt.clone(), content: nc }
            },
            GrammarDerivation::Wrapped { transform, content } => {
                proof {
                    assert(decreases_to!(*d => (*d)->Wrapped_content));
                }
                let nc = self.expand_children(content, rng);
                GrammarDerivation::Wrapped { transform: *transform, content: nc }
            },
            GrammarDerivation::Split { branches } => {
                let mut nb: Vec<Vec<GrammarDerivation>> = Vec::new();
                let mut b: usize = 0;
                while b < branches.len()
                    invariant
                        gp == gen_prods(*self),
                        dv == deriv_view(*d),
                        (*d) is Split,
                        (*d)->Split_branches == *branches,
                        self.config.panic_on_bad_production ==> forall|k: int|
                            0 <= k < dv->Split_0.len() ==> all_covered(gp, #[trigger] dv->Split_0[k]),
                        b <= branches@.len(),
                        nb@.len() == b,
                        forall|k: int|
                            0 <= k < b ==> all_expanded_once(gp, derivs_view(branches@[k]), derivs_view(#[trigger] nb@[k])),
                    decreases branches@.len() - b,
                {
                    proof {
                        assert(decreases_to!(*d => (*d)->Split_branches));
                        assert(decreases_to!(*branches => branches@));
                        assert(decreases_to!(branches@ => branches@[b as int]));
                        assert(dv->Split_0[b as int] == derivs_view(branches@[b as int]));
                    }
                    nb.push(self.expand_children(&branches[b], rng));
                    b = b + 1;
                }
                let r = GrammarDerivation::Split { branches: nb };
                proof {
                    let e = deriv_view(r);
                    assert forall|k: int| 0 <= k < dv->Split_0.len() implies all_expanded_once(
                        gp,
                        #[trigger] dv->Split_0[k],
                        e->Split_0[k],
                    ) by {
                        assert(e->Split_0[k] == derivs_view(nb@[k]));
                    }
                }
                r
            },
        };
        proof {
            lemma_expanded_parts(gp, dv, deriv_view(r));
        }
        r
    }

    /// Expand every unexpanded leaf of the derivation once.
    pub fn expand_derivation(&self, derivation: &mut GrammarDerivation, rng: &mut rand::rngs::StdRng)
        requires
            self.config.panic_on_bad_production ==> nts_covered(gen_prods(*self), deriv_view(*old(derivation))),
        ensures
            expanded_once(gen_prods(*self), deriv_view(*old(derivation)), deriv_view(*final(derivation))),
    {
        let r = self.expand_once_exec(derivation, rng);
        *derivation = r;
    }
}


proof fn lemma_leaf_covered(g: Seq<(Seq<char>, Seq<PrimV>)>, p: PrimV)
    requires
        prim_covered(g, p),
    ensures
        nts_covered(g, leaf_of(p)),
    decreases p, 0int,
{
    match p {
        PrimV::Simple(_) => {},
        PrimV::Split(bs) => {
            let d = leaf_of(p);
            assert forall|b: int| 0 <= b < bs.len() implies all_covered(g, #[trigger] d->Split_0[b]) by {
                assert(covered(g, bs[b]));
                lemma_leaves_covered(g, bs[b]);
            }
        },
        PrimV::Transform(_, c) => {
            lemma_leaves_covered(g, c);
        },
    }
}

proof fn lemma_leaves_covered(g: Seq<(Seq<char>, Seq<PrimV>)>, ps: Seq<PrimV>)
    requires
        covered(g, ps),
    ensures
        all_covered(g, leaves_of(ps)),
    decreases ps, 1int,
{
    assert forall|i: int| 0 <= i < ps.len() implies nts_covered(g, #[trigger] leaves_of(ps)[i]) by {
        assert(prim_covered(g, ps[i]));
        lemma_leaf_covered(g, ps[i]);
    }
}

proof fn lemma_expansion_covered(g: Seq<(Seq<char>, Seq<PrimV>)>, nt: Seq<char>, d: DerivV)
    requires
        grammar_complete(g),
        has_production(g, nt),
        nt_expansion(g, nt, d),
    ensures
        nts_covered(g, d),
{
    let j = choose|j: int|
        0 <= j < g.len() && (#[trigger] g[j]).0 == nt && d == DerivV::Branch(nt, leaves_of(g[j].1));
    assert(covered(g, g[j].1));
    lemma_leaves_covered(g, g[j].1);
}

proof fn lemma_expanded_covered(g: Seq<(Seq<char>, Seq<PrimV>)>, d: DerivV, e: DerivV)
    requires
        grammar_complete(g),
        nts_covered(g, d),
        expanded_once(g, d, e),
    ensures
        nts_covered(g, e),
    decreases d, 0int,
{
    match d {
        DerivV::NTLeaf(nt) => {
            lemma_expansion_covered(g, nt, e);
        },
        DerivV::TLeaf(_) => {},
        DerivV::Branch(nt, c) => {
            lemma_all_expanded_covered(g, c, e->Branch_1);
        },
        DerivV::Wrapped(t, c) => {
            lemma_all_expanded_covered(g, c, e->Wrapped_1);
        },
        DerivV::Split(bs) => {
            assert forall|b: int| 0 <= b < e->Split_0.len() implies all_covered(g, #[trigger] e->Split_0[b]) by {
                assert(all_covered(g, bs[b]));
                assert(all_expanded_once(g, bs[b], e->Split_0[b]));
                lemma_all_expanded_covered(g, bs[b], e->Split_0[b]);
            }
        },
    }
}

proof fn lemma_all_expanded_covered(g: Seq<(Seq<char>, Seq<PrimV>)>, c: Seq<DerivV>, c2: Seq<DerivV>)
    requires
        grammar_complete(g),
        all_covered(g, c),
        all_expanded_once(g, c, c2),
    ensures
        all_covered(g, c2),
    decreases c, 1int,
{
    assert forall|i: int| 0 <= i < c2.len() implies nts_covered(g, #[trigger] c2[i]) by {
        assert(nts_covered(g, c[i]));
        assert(expanded_once(g, c[i], c2[i]));
        lemma_expanded_covered(g, c[i], c2[i]);
    }
}

/// `e` comes from `d` by `n` rounds of expanding every unexpanded leaf once.
pub open spec fn expanded_n(g: Seq<(Seq<char>, Seq<PrimV>)>, d: DerivV, e: DerivV, n: nat) -> bool
    decreases n,
{
    if n == 0 {
        e == d
    } else {
        exists|mid: DerivV| expanded_n(g, d, mid, (n - 1) as nat) && #[trigger] expanded_once(g, mid, e)
    }
}

impl GrammarDerivationGenerator {
    /// A derivation of the grammar: its start symbol expanded, then every unexpanded leaf
    /// expanded once more, `iterations - 1` times.
    pub fn produce(&self, rng: &mut rand::rngs::StdRng) -> (r: GrammarDerivation)
        requires
            self.config.panic_on_bad_production ==> grammar_complete(gen_prods(*self)) && has_production(
                gen_prods(*self),
                nt_view(self.grammar.start),
            ),
        ensures
            exists|d0: DerivV|
                #[trigger] nt_expansion(gen_prods(*self), nt_view(self.grammar.start), d0) && expanded_n(
                    gen_prods(*self),
                    d0,
                    deriv_view(r),
                    if self.config.iterations >= 1 {
                        (self.config.iterations - 1) as nat
                    } else {
                        0
                    },
                ),
    {
        let ghost gp = gen_prods(*self);
        let start_nt = self.grammar.start.clone();
        let mut derivation = self.expand_nonterminal(&start_nt, rng);
        let ghost d0 = deriv_view(derivation);
        proof {
            if self.config.panic_on_bad_production {
                lemma_expansion_covered(gp, nt_view(start_nt), d0);
            }
        }
        let mut k: usize = 1;
        while k < self.config.iterations
            invariant
                gp == gen_prods(*self),
                1 <= k,
                k <= self.config.iterations || k == 1,
                expanded_n(gp, d0, deriv_view(derivation), (k - 1) as nat),
                self.config.panic_on_bad_production ==> grammar_complete(gp) && nts_covered(gp, deriv_view(derivation)),
            decreases self.config.iterations - k,
        {
            let ghost before = deriv_view(derivation);
            self.expand_derivation(&mut derivation, rng);
            proof {
                if self.config.panic_on_bad_production {
                    lemma_expanded_covered(gp, before, deriv_view(derivation));
                }
                assert(expanded_n(gp, d0, before, (k - 1) as nat) && expanded_once(gp, before, deriv_view(derivation)));
            }
            k = k + 1;
        }
        proof {
            assert(nt_expansion(gp, nt_view(start_nt), d0));
        }
        derivation
    }
}


/// The non-terminal passes the filter: any does without one, else only the filter's own.
pub open spec fn passes(nt: Seq<char>, f: Option<Seq<char>>) -> bool {
    match f {
        Some(x) => nt == x,
        None => true,
    }
}

/// The depth one branch further down; it stays at the largest `usize`.
pub open spec fn next_depth(depth: int) -> int {
    if depth < usize::MAX {
        depth + 1
    } else {
        depth
    }
}

/// The positions, with `pre` in front, and depths of a list of non-terminal nodes.
pub open spec fn prefixed(ns: Seq<(Seq<usize>, int)>, pre: Seq<usize>) -> Seq<(Seq<usize>, int)> {
    ns.map_values(|n: (Seq<usize>, int)| (pre + n.0, n.1))
}

/// The non-terminal nodes (branches and unexpanded leaves) of a derivation that pass the
/// filter, in pre-order: each with its position (the index of the child under a branch or a
/// transform, the indices of the branch and the child under a split) and its depth, which
/// only branches increase.
pub open spec fn nt_nodes(d: DerivV, depth: int, f: Option<Seq<char>>) -> Seq<(Seq<usize>, int)>
    decreases d, 0int,
{
    match d {
        DerivV::Branch(nt, c) => (if passes(nt, f) {
            seq![(Seq::<usize>::empty(), depth)]
        } else {
            Seq::empty()
        }) + children_nodes(c, next_depth(depth), f, Seq::empty()),
        DerivV::Wrapped(_, c) => children_nodes(c, depth, f, Seq::empty()),
        DerivV::Split(bs) => split_nodes(bs, depth, f),
        DerivV::NTLeaf(nt) => if passes(nt, f) {
            seq![(Seq::<usize>::empty(), depth)]
        } else {
            Seq::empty()
        },
        DerivV::TLeaf(_) => Seq::empty(),
    }
}

/// The non-terminal nodes of a list of derivations, the positions behind `pre`.
pub open spec fn children_nodes(c: Seq<DerivV>, depth: int, f: Option<Seq<char>>, pre: Seq<usize>) -> Seq<(Seq<usize>, int)>
    decreases c, 1int,
{
    if c.len() == 0 {
        Seq::empty()
    } else {
        proof {
            assert(decreases_to!(c => c.drop_last()));
            assert(decreases_to!(c => c[c.len() - 1]));
        }
        children_nodes(c.drop_last(), depth, f, pre) + prefixed(
            nt_nodes(c[c.len() - 1], depth, f),
            pre.push((c.len() - 1) as usize),
        )
    }
}

/// The non-terminal nodes of the branches of a split.
pub open spec fn split_nodes(bs: Seq<Seq<DerivV>>, depth: int, f: Option<Seq<char>>) -> Seq<(Seq<usize>, int)>
    decreases bs, 2int,
{
    if bs.len() == 0 {
        Seq::empty()
    } else {
        proof {
            assert(decreases_to!(bs => bs.drop_last()));
            assert(decreases_to!(bs => bs[bs.len() - 1]));
        }
        split_nodes(bs.drop_last(), depth, f) + children_nodes(
            bs[bs.len() - 1],
            depth,
            f,
            seq![(bs.len() - 1) as usize],
        )
    }
}

/// The filter as characters.
pub open spec fn filter_view(f: Option<&NonTerminal>) -> Option<Seq<char>> {
    match f {
        Some(nt) => Some(nt_view(*nt)),
        None => None,
    }
}

/// The views of a list of node positions and depths.
pub open spec fn nodes_view(v: Seq<(Vec<usize>, usize)>) -> Seq<(Seq<usize>, int)> {
    v.map_values(|n: (Vec<usize>, usize)| (n.0@, n.1 as int))
}

fn passes_exec(nt: &NonTerminal, f: Option<&NonTerminal>) -> (r: bool)
    ensures
        r == passes(nt_view(*nt), filter_view(f)),
{
    match f {
        Some(x) => nt_eq(nt, x),
        None => true,
    }
}

fn append_prefixed(out: &mut Vec<(Vec<usize>, usize)>, ns: Vec<(Vec<usize>, usize)>, pre: &Vec<usize>)
    ensures
        nodes_view(final(out)@) == nodes_view(old(out)@) + prefixed(nodes_view(ns@), pre@),
{
    let ghost start = nodes_view(out@);
    let ghost orig = ns@;
    let mut rest = ns;
    let mut k: usize = 0;
    let total = rest.len();
    while rest.len() > 0
        invariant
            total == orig.len(),
            k + rest@.len() == total,
            rest@ == orig.skip(k as int),
            nodes_view(out@) == start + prefixed(nodes_view(orig), pre@).take(k as int),
        decreases rest@.len(),
    {
        let (p, dep) = rest.remove(0);
        assert((p, dep) == orig[k as int]);
        let mut full: Vec<usize> = Vec::new();
        let mut j: usize = 0;
        while j < pre.len()
            invariant
                j <= pre@.len(),
                full@ == pre@.take(j as int),
            decreases pre@.len() - j,
        {
            full.push(pre[j]);
            j = j + 1;
            assert(full@ =~= pre@.take(j as int));
        }
        let mut j: usize = 0;
        let ghost base = full@;
        assert(base =~= pre@);
        while j < p.len()
            invariant
                j <= p@.len(),
                full@ == base + p@.take(j as int),
            decreases p@.len() - j,
        {
            full.push(p[j]);
            j = j + 1;
            assert(full@ =~= base + p@.take(j as int));
        }
        assert(p@.take(p@.len() as int) =~= p@);
        assert(full@ =~= pre@ + p@);
        let ghost oldv = nodes_view(out@);
        let ghost pf = prefixed(nodes_view(orig), pre@);
        assert(pf[k as int] == (full@, dep as int));
        out.push((full, dep));
        assert(nodes_view(out@) =~= oldv.push((full@, dep as int)));
        assert(pf.take(k + 1) =~= pf.take(k as int).push(pf[k as int]));
        k = k + 1;
        assert(nodes_view(out@) =~= start + prefixed(nodes_view(orig), pre@).take(k as int));
        assert(rest@ =~= orig.skip(k as int));
    }
    assert(prefixed(nodes_view(orig), pre@).take(k as int) =~= prefixed(nodes_view(orig), pre@));
}

fn collect_children(c: &Vec<GrammarDerivation>, depth: usize, f: Option<&NonTerminal>, pre: &Vec<usize>) -> (r: Vec<(Vec<usize>, usize)>)
    ensures
        nodes_view(r@) == children_nodes(derivs_view(*c), depth as int, filter_view(f), pre@),
    decreases c, 1int,
{
    let ghost cv = derivs_view(*c);
    let mut out: Vec<(Vec<usize>, usize)> = Vec::new();
    let mut i: usize = 0;
    assert(cv.take(0) =~= Seq::<DerivV>::empty());
    while i < c.len()
        invariant
            cv == derivs_view(*c),
            i <= c@.len(),
            nodes_view(out@) == children_nodes(cv.take(i as int), depth as int, filter_view(f), pre@),
        decreases c@.len() - i,
    {
        proof {
            assert(decreases_to!(c => c@));
            assert(decreases_to!(c@ => c@[i as int]));
            assert(cv.take(i + 1).drop_last() =~= cv.take(i as int));
            assert(cv.take(i + 1)[i as int] == deriv_view(c@[i as int]));
        }
        let ns = collect_nodes(&c[i], depth, f);
        let mut pi: Vec<usize> = Vec::new();
        let mut j: usize = 0;
        while j < pre.len()
            invariant
                j <= pre@.len(),
                pi@ == pre@.take(j as int),
            decreases pre@.len() - j,
        {
            pi.push(pre[j]);
            j = j + 1;
            assert(pi@ =~= pre@.take(j as int));
        }
        assert(pre@.take(pre@.len() as int) =~= pre@);
        pi.push(i);
        append_prefixed(&mut out, ns, &pi);
        i = i + 1;
    }
    assert(cv.take(i as int) =~= cv);
    out
}

fn collect_nodes(d: &GrammarDerivation, depth: usize, f: Option<&NonTerminal>) -> (r: Vec<(Vec<usize>, usize)>)
    ensures
        nodes_view(r@) == nt_nodes(deriv_view(*d), depth as int, filter_view(f)),
    decreases d, 0int,
{
    match d {
        GrammarDerivation::Branch { nt, content } => {
            let mut out: Vec<(Vec<usize>, usize)> = Vec::new();
            if passes_exec(nt, f) {
                out.push((Vec::new(), depth));
            }
            let next: usize = if depth < usize::MAX {
                depth + 1
            } else {
                depth
            };
            proof {
                assert(decreases_to!(*d => (*d)->Branch_content));
            }
            let rest = collect_children(content, next, f, &Vec::new());
            let ghost before = nodes_view(out@);
            let mut rest = rest;
            out.append(&mut rest);
            assert(nodes_view(out@) =~= nt_nodes(deriv_view(*d), depth as int, filter_view(f)));
            out
        },
        GrammarDerivation::Wrapped { content, .. } => {
            proof {
                assert(decreases_to!(*d => (*d)->Wrapped_content));
            }
            collect_children(content, depth, f, &Vec::new())
        },
        GrammarDerivation::Split { branches } => {
            let ghost bsv = deriv_view(*d)->Split_0;
            let mut out: Vec<(Vec<usize>, usize)> = Vec::new();
            let mut b: usize = 0;
            assert(bsv.take(0) =~= Seq::<Seq<DerivV>>::empty());
            while b < branches.len()
                invariant
                    (*d) is Split,
                    (*d)->Split_branches == *branches,
                    bsv == deriv_view(*d)->Split_0,
                    bsv.len() == branches@.len(),
                    b <= branches@.len(),
                    nodes_view(out@) == split_nodes(bsv.take(b as int), depth as int, filter_view(f)),
                decreases branches@.len() - b,
            {
                proof {
                    assert(decreases_to!(*d => (*d)->Split_branches));
                    assert(decreases_to!(*branches => branches@));
                    assert(decreases_to!(branches@ => branches@[b as int]));
                    assert(bsv.take(b + 1).drop_last() =~= bsv.take(b as int));
                    assert(bsv.take(b + 1)[b as int] == derivs_view(branches@[b as int]));
                }
                let mut pre: Vec<usize> = Vec::new();
                pre.push(b);
                assert(pre@ =~= seq![b]);
                let mut more = collect_children(&branches[b], depth, f, &pre);
                out.append(&mut more);
                b = b + 1;
            }
            assert(bsv.take(b as int) =~= bsv);
            out
        },
        GrammarDerivation::NTLeaf(nt) => {
            let mut out: Vec<(Vec<usize>, usize)> = Vec::new();
            if passes_exec(nt, f) {
                out.push((Vec::new(), depth));
            }
            assert(nodes_view(out@) =~= nt_nodes(deriv_view(*d), depth as int, filter_view(f)));
            out
        },
        GrammarDerivation::TLeaf(_) => {
            let out: Vec<(Vec<usize>, usize)> = Vec::new();
            assert(nodes_view(out@) =~= nt_nodes(deriv_view(*d), depth as int, filter_view(f)));
            out
        },
    }
}

impl GrammarDerivation {
    /// The number of non-terminal nodes, branches and unexpanded leaves, that pass the
    /// filter: all of them without one, else those of the filter's non-terminal.
    pub fn count_filtered_nts(&self, filter: Option<&NonTerminal>) -> (n: usize)
        ensures
            n == nt_nodes(deriv_view(*self), 0, filter_view(filter)).len(),
    {
        let nodes = collect_nodes(self, 0, filter);
        nodes.len()
    }

    /// The `k`-th node, counting from 0 in the order of the search, that holds a non-terminal
    /// passing the filter: its position and its depth; `None` when there are no more than `k`
    /// such nodes.
    pub fn pick_nt_at(&self, filter: Option<&NonTerminal>, k: usize) -> (r: Option<(Vec<usize>, usize)>)
        ensures
            r is Some <==> k < nt_nodes(deriv_view(*self), 0, filter_view(filter)).len(),
            r matches Some((path, depth)) ==> nt_nodes(deriv_view(*self), 0, filter_view(filter))[k as int]
                == (path@, depth as int),
    {
        let mut nodes = collect_nodes(self, 0, filter);
        if k >= nodes.len() {
            return None;
        }
        let ghost nv = nodes_view(nodes@);
        let picked = nodes.swap_remove(k);
        assert(nv[k as int] == (picked.0@, picked.1 as int));
        Some(picked)
    }

    /// A non-terminal node that passes the filter, drawn at random: its position and its
    /// depth; `None` when there is none. The draw picks an index below the number of such
    /// nodes, and `pick_nt_at` gives the node at that index.
    pub fn pick_random_nt_mut(&self, rng: &mut rand::rngs::StdRng, filter: Option<&NonTerminal>) -> (r: Option<(Vec<usize>, usize)>)
        ensures
            r is None <==> nt_nodes(deriv_view(*self), 0, filter_view(filter)).len() == 0,
            r matches Some((path, depth)) ==> exists|t: int|
                0 <= t < nt_nodes(deriv_view(*self), 0, filter_view(filter)).len()
                    && #[trigger] nt_nodes(deriv_view(*self), 0, filter_view(filter))[t] == (path@, depth as int),
    {
        let n = self.count_filtered_nts(filter);
        if n == 0 {
            return None;
        }
        let target = random_below(rng, n);
        self.pick_nt_at(filter, target)
    }
}


/// The node at a position: under a branch or a transform the next index picks a child, under
/// a split the next two pick a branch and a child in it. `None` when the position leads
/// nowhere.
pub open spec fn node_at(d: DerivV, path: Seq<usize>) -> Option<DerivV>
    decreases path.len(),
{
    if path.len() == 0 {
        Some(d)
    } else {
        match d {
            DerivV::Branch(_, c) => if path[0] < c.len() {
                node_at(c[path[0] as int], path.skip(1))
            } else {
                None
            },
            DerivV::Wrapped(_, c) => if path[0] < c.len() {
                node_at(c[path[0] as int], path.skip(1))
            } else {
                None
            },
            DerivV::Split(bs) => if path.len() >= 2 && path[0] < bs.len() && path[1] < bs[path[0] as int].len() {
                node_at(bs[path[0] as int][path[1] as int], path.skip(2))
            } else {
                None
            },
            _ => None,
        }
    }
}

/// The derivation with the node at a position replaced by `new`; unchanged when the position
/// leads nowhere.
pub open spec fn replaced_at(d: DerivV, path: Seq<usize>, new: DerivV) -> DerivV
    decreases path.len(),
{
    if path.len() == 0 {
        new
    } else {
        match d {
            DerivV::Branch(nt, c) => if path[0] < c.len() {
                DerivV::Branch(nt, c.update(path[0] as int, replaced_at(c[path[0] as int], path.skip(1), new)))
            } else {
                d
            },
            DerivV::Wrapped(t, c) => if path[0] < c.len() {
                DerivV::Wrapped(t, c.update(path[0] as int, replaced_at(c[path[0] as int], path.skip(1), new)))
            } else {
                d
            },
            DerivV::Split(bs) => if path.len() >= 2 && path[0] < bs.len() && path[1] < bs[path[0] as int].len() {
                DerivV::Split(
                    bs.update(
                        path[0] as int,
                        bs[path[0] as int].update(
                            path[1] as int,
                            replaced_at(bs[path[0] as int][path[1] as int], path.skip(2), new),
                        ),
                    ),
                )
            } else {
                d
            },
            _ => d,
        }
    }
}

fn subtree_from<'a>(d: &'a GrammarDerivation, path: &Vec<usize>, k: usize) -> (r: Option<&'a GrammarDerivation>)
    requires
        k <= path@.len(),
    ensures
        match node_at(deriv_view(*d), path@.skip(k as int)) {
            Some(n) => r matches Some(x) && deriv_view(*x) == n,
            None => r is None,
        },
    decreases path@.len() - k,
{
    if k == path.len() {
        assert(path@.skip(k as int) =~= Seq::<usize>::empty());
        return Some(d);
    }
    let ghost sk = path@.skip(k as int);
    assert(sk[0] == path@[k as int]);
    assert(sk.skip(1) =~= path@.skip(k + 1));
    let i = path[k];
    match d {
        GrammarDerivation::Branch { content, .. } => {
            if i < content.len() {
                assert(derivs_view(*content)[i as int] == deriv_view(content@[i as int]));
                subtree_from(&content[i], path, k + 1)
            } else {
                None
            }
        },
        GrammarDerivation::Wrapped { content, .. } => {
            if i < content.len() {
                assert(derivs_view(*content)[i as int] == deriv_view(content@[i as int]));
                subtree_from(&content[i], path, k + 1)
            } else {
                None
            }
        },
        GrammarDerivation::Split { branches } => {
            if k + 1 < path.len() && i < branches.len() && path[k + 1] < branches[i].len() {
                let j = path[k + 1];
                assert(sk[1] == path@[k + 1]);
                assert(sk.skip(2) =~= path@.skip(k + 2));
                assert(deriv_view(*d)->Split_0[i as int] == derivs_view(branches@[i as int]));
                assert(derivs_view(branches@[i as int])[j as int] == deriv_view(branches@[i as int]@[j as int]));
                subtree_from(&branches[i][j], path, k + 2)
            } else {
                None
            }
        },
        _ => None,
    }
}

fn replace_from(d: GrammarDerivation, path: &Vec<usize>, k: usize, new: GrammarDerivation) -> (r: (GrammarDerivation, bool))
    requires
        k <= path@.len(),
    ensures
        r.1 == (node_at(deriv_view(d), path@.skip(k as int)) is Some),
        deriv_view(r.0) == (if r.1 {
            replaced_at(deriv_view(d), path@.skip(k as int), deriv_view(new))
        } else {
            deriv_view(d)
        }),
    decreases path@.len() - k,
{
    if k == path.len() {
        assert(path@.skip(k as int) =~= Seq::<usize>::empty());
        return (new, true);
    }
    let ghost dv = deriv_view(d);
    let ghost sk = path@.skip(k as int);
    assert(sk[0] == path@[k as int]);
    assert(sk.skip(1) =~= path@.skip(k + 1));
    let i = path[k];
    match d {
        GrammarDerivation::Branch { nt, content } => {
            let mut content = content;
            if i < content.len() {
                let ghost cv = derivs_view(content);
                let child = content.remove(i);
                assert(deriv_view(child) == cv[i as int]);
                let (nc, ok) = replace_from(child, path, k + 1, new);
                let ghost ncv = deriv_view(nc);
                content.insert(i, nc);
                assert(derivs_view(content) =~= cv.update(i as int, ncv));
                let r = GrammarDerivation::Branch { nt, content };
                proof {
                    if !ok {
                        assert(cv.update(i as int, ncv) =~= cv);
                    }
                }
                (r, ok)
            } else {
                (GrammarDerivation::Branch { nt, content }, false)
            }
        },
        GrammarDerivation::Wrapped { transform, content } => {
            let mut content = content;
            if i < content.len() {
                let ghost cv = derivs_view(content);
                let child = content.remove(i);
                assert(deriv_view(child) == cv[i as int]);
                let (nc, ok) = replace_from(child, path, k + 1, new);
                let ghost ncv = deriv_view(nc);
                content.insert(i, nc);
                assert(derivs_view(content) =~= cv.update(i as int, ncv));
                let r = GrammarDerivation::Wrapped { transform, content };
                proof {
                    if !ok {
                        assert(cv.update(i as int, ncv) =~= cv);
                    }
                }
                (r, ok)
            } else {
                (GrammarDerivation::Wrapped { transform, content }, false)
            }
        },
        GrammarDerivation::Split { branches } => {
            let mut branches = branches;
            if k + 1 < path.len() && i < branches.len() && path[k + 1] < branches[i].len() {
                let j = path[k + 1];
                assert(sk[1] == path@[k + 1]);
                assert(sk.skip(2) =~= path@.skip(k + 2));
                let ghost bv = dv->Split_0;
                let mut br = branches.remove(i);
                assert(derivs_view(br) == bv[i as int]);
                let ghost brv = derivs_view(br);
                let child = br.remove(j);
                assert(deriv_view(child) == brv[j as int]);
                let (nc, ok) = replace_from(child, path, k + 2, new);
                let ghost ncv = deriv_view(nc);
                br.insert(j, nc);
                assert(derivs_view(br) =~= brv.update(j as int, ncv));
                let ghost newbr = derivs_view(br);
                branches.insert(i, br);
                let r = GrammarDerivation::Split { branches };
                proof {
                    let rv = deriv_view(r);
                    assert(rv->Split_0 =~= bv.update(i as int, newbr));
                    if !ok {
                        assert(brv.update(j as int, ncv) =~= brv);
                        assert(bv.update(i as int, newbr) =~= bv);
                    }
                }
                (r, ok)
            } else {
                (GrammarDerivation::Split { branches }, false)
            }
        },
        other => (other, false),
    }
}

impl GrammarDerivation {
    /// One crossover with `other`: a copy of this derivation in which the node at `path`
    /// is replaced by a copy of the `k`-th node of `other`, in the order of the search, that
    /// holds the same non-terminal.
    pub fn crossover_with_at(&self, other: &GrammarDerivation, path: &Vec<usize>, k: usize) -> (r: Option<
        GrammarDerivation,
    >)
        ensures
            match r {
                Some(c) => crossover_spec(deriv_view(*self), deriv_view(*other), path@, k as int) == Some(
                    deriv_view(c),
                ),
                None => crossover_spec(deriv_view(*self), deriv_view(*other), path@, k as int) is None,
            },
    {
        let node = match self.subtree_at(path) {
            Some(n) => n,
            None => return None,
        };
        let nt = match node.get_nt_root() {
            Some(x) => x,
            None => return None,
        };
        let picked = match other.pick_nt_at(Some(nt), k) {
            Some(p) => p,
            None => return None,
        };
        let m = match other.subtree_at(&picked.0) {
            Some(m) => m,
            None => return None,
        };
        let mut current = self.clone();
        let replacement = m.clone();
        current.replace_at(path, replacement);
        Some(current)
    }

    /// One crossover attempt with `other`: the node at `path` is replaced by a copy of a node
    /// of `other` drawn at random among those that hold the same non-terminal; `None` when
    /// there is none.
    pub fn crossover_at(&self, other: &GrammarDerivation, path: &Vec<usize>, rng: &mut rand::rngs::StdRng) -> (r:
        Option<GrammarDerivation>)
        ensures
            crossover_candidates(deriv_view(*self), deriv_view(*other), path@) == 0 ==> r is None,
            crossover_candidates(deriv_view(*self), deriv_view(*other), path@) > 0 ==> r is Some,
            r matches Some(c) ==> exists|k: int|
                0 <= k < crossover_candidates(deriv_view(*self), deriv_view(*other), path@)
                    && #[trigger] crossover_spec(deriv_view(*self), deriv_view(*other), path@, k) == Some(
                    deriv_view(c),
                ),
    {
        let node = match self.subtree_at(path) {
            Some(n) => n,
            None => return None,
        };
        let nt = match node.get_nt_root() {
            Some(x) => x,
            None => return None,
        };
        let n = other.count_filtered_nts(Some(nt));
        if n == 0 {
            return None;
        }
        let k = random_below(rng, n);
        proof {
            lemma_view_sizes_fit(*other);
            lemma_nt_nodes_found(deriv_view(*other), 0, Some(nt_view(*nt)));
            let cands = nt_nodes(deriv_view(*other), 0, Some(nt_view(*nt)));
            assert(holds_nt_at(deriv_view(*other), cands[k as int].0, Some(nt_view(*nt))));
        }
        self.crossover_with_at(other, path, k)
    }

    /// The node at a position, if the position leads to one.
    pub fn subtree_at(&self, path: &Vec<usize>) -> (r: Option<&GrammarDerivation>)
        ensures
            match node_at(deriv_view(*self), path@) {
                Some(n) => r matches Some(x) && deriv_view(*x) == n,
                None => r is None,
            },
    {
        assert(path@.skip(0) =~= path@);
        subtree_from(self, path, 0)
    }

    /// Replace the node at a position with `new`; whether the position led to a node. The
    /// derivation is unchanged when it did not.
    pub fn replace_at(&mut self, path: &Vec<usize>, new: GrammarDerivation) -> (ok: bool)
        ensures
            ok == (node_at(deriv_view(*old(self)), path@) is Some),
            deriv_view(*final(self)) == (if ok {
                replaced_at(deriv_view(*old(self)), path@, deriv_view(new))
            } else {
                deriv_view(*old(self))
            }),
    {
        assert(path@.skip(0) =~= path@);
        let mut d = GrammarDerivation::NTLeaf(NonTerminal::Custom(String::new()));
        core::mem::swap(&mut d, self);
        let (r, ok) = replace_from(d, path, 0, new);
        *self = r;
        ok
    }
}


/// `e` is `d` expanded recursively from `depth` on: every unexpanded leaf is expanded, and
/// what its expansion holds is expanded in turn one level deeper, up to the depth `max`.
/// Only the expansions increase the depth.
pub open spec fn exp_rec(g: Seq<(Seq<char>, Seq<PrimV>)>, max: int, d: DerivV, e: DerivV, depth: int) -> bool
    decreases max + 1 - depth, d, 0int,
{
    if depth > max {
        e == d
    } else {
        match d {
            DerivV::NTLeaf(nt) => exists|mid: DerivV|
                #[trigger] nt_expansion(g, nt, mid) && exp_rec(g, max, mid, e, depth + 1),
            DerivV::TLeaf(_) => e == d,
            DerivV::Branch(nt, c) => e is Branch && e->Branch_0 == nt && all_exp_rec(g, max, c, e->Branch_1, depth),
            DerivV::Wrapped(t, c) => e is Wrapped && e->Wrapped_0 == t && all_exp_rec(g, max, c, e->Wrapped_1, depth),
            DerivV::Split(bs) => e is Split && e->Split_0.len() == bs.len() && forall|b: int|
                0 <= b < bs.len() ==> all_exp_rec(g, max, #[trigger] bs[b], e->Split_0[b], depth),
        }
    }
}

/// Each of `c2` is the matching one of `c` expanded recursively from `depth` on.
pub open spec fn all_exp_rec(g: Seq<(Seq<char>, Seq<PrimV>)>, max: int, c: Seq<DerivV>, c2: Seq<DerivV>, depth: int) -> bool
    decreases max + 1 - depth, c, 1int,
{
    c2.len() == c.len() && forall|i: int| 0 <= i < c.len() ==> exp_rec(g, max, #[trigger] c[i], c2[i], depth)
}

proof fn lemma_exp_rec_parts(g: Seq<(Seq<char>, Seq<PrimV>)>, max: int, d: DerivV, e: DerivV, depth: int)
    requires
        depth <= max,
        d is Branch ==> e is Branch && e->Branch_0 == d->Branch_0 && all_exp_rec(g, max, d->Branch_1, e->Branch_1, depth),
        d is Wrapped ==> e is Wrapped && e->Wrapped_0 == d->Wrapped_0 && all_exp_rec(g, max, d->Wrapped_1, e->Wrapped_1, depth),
        d is Split ==> e is Split && e->Split_0.len() == d->Split_0.len() && forall|b: int|
            0 <= b < d->Split_0.len() ==> all_exp_rec(g, max, #[trigger] d->Split_0[b], e->Split_0[b], depth),
        d is NTLeaf ==> exists|mid: DerivV|
            #[trigger] nt_expansion(g, d->NTLeaf_0, mid) && exp_rec(g, max, mid, e, depth + 1),
        d is TLeaf ==> e == d,
    ensures
        exp_rec(g, max, d, e, depth),
{
    match d {
        DerivV::Split(bs) => {
            assert forall|b: int| 0 <= b < bs.len() implies all_exp_rec(g, max, #[trigger] bs[b], e->Split_0[b], depth) by {}
        },
        _ => {},
    }
}

proof fn lemma_all_exp_rec(g: Seq<(Seq<char>, Seq<PrimV>)>, max: int, c: Seq<DerivV>, c2: Seq<DerivV>, depth: int)
    requires
        c2.len() == c.len(),
        forall|i: int| 0 <= i < c.len() ==> exp_rec(g, max, #[trigger] c[i], c2[i], depth),
    ensures
        all_exp_rec(g, max, c, c2, depth),
{
}

proof fn lemma_node_covered(g: Seq<(Seq<char>, Seq<PrimV>)>, d: DerivV, path: Seq<usize>)
    requires
        nts_covered(g, d),
        node_at(d, path) is Some,
    ensures
        nts_covered(g, node_at(d, path)->0),
    decreases path.len(),
{
    if path.len() > 0 {
        lemma_covered_parts(g, d);
        match d {
            DerivV::Branch(_, c) => {
                lemma_all_covered(g, c, path[0] as int);
                lemma_node_covered(g, c[path[0] as int], path.skip(1));
            },
            DerivV::Wrapped(_, c) => {
                lemma_all_covered(g, c, path[0] as int);
                lemma_node_covered(g, c[path[0] as int], path.skip(1));
            },
            DerivV::Split(bs) => {
                assert(all_covered(g, bs[path[0] as int]));
                lemma_all_covered(g, bs[path[0] as int], path[1] as int);
                lemma_node_covered(g, bs[path[0] as int][path[1] as int], path.skip(2));
            },
            _ => {},
        }
    }
}

proof fn lemma_replace_covered(g: Seq<(Seq<char>, Seq<PrimV>)>, d: DerivV, path: Seq<usize>, new: DerivV)
    requires
        nts_covered(g, d),
        nts_covered(g, new),
    ensures
        nts_covered(g, replaced_at(d, path, new)),
    decreases path.len(),
{
    if path.len() > 0 {
        lemma_covered_parts(g, d);
        let r = replaced_at(d, path, new);
        match d {
            DerivV::Branch(nt, c) => {
                if path[0] < c.len() {
                    let i = path[0] as int;
                    lemma_all_covered(g, c, i);
                    lemma_replace_covered(g, c[i], path.skip(1), new);
                    let c2 = c.update(i, replaced_at(c[i], path.skip(1), new));
                    assert forall|k: int| 0 <= k < c2.len() implies nts_covered(g, #[trigger] c2[k]) by {
                        if k != i {
                            lemma_all_covered(g, c, k);
                        }
                    }
                    assert(all_covered(g, c2));
                }
            },
            DerivV::Wrapped(t, c) => {
                if path[0] < c.len() {
                    let i = path[0] as int;
                    lemma_all_covered(g, c, i);
                    lemma_replace_covered(g, c[i], path.skip(1), new);
                    let c2 = c.update(i, replaced_at(c[i], path.skip(1), new));
                    assert forall|k: int| 0 <= k < c2.len() implies nts_covered(g, #[trigger] c2[k]) by {
                        if k != i {
                            lemma_all_covered(g, c, k);
                        }
                    }
                    assert(all_covered(g, c2));
                }
            },
            DerivV::Split(bs) => {
                if path.len() >= 2 && path[0] < bs.len() && path[1] < bs[path[0] as int].len() {
                    let i = path[0] as int;
                    let j = path[1] as int;
                    assert(all_covered(g, bs[i]));
                    lemma_all_covered(g, bs[i], j);
                    lemma_replace_covered(g, bs[i][j], path.skip(2), new);
                    let b2 = bs[i].update(j, replaced_at(bs[i][j], path.skip(2), new));
                    assert forall|k: int| 0 <= k < b2.len() implies nts_covered(g, #[trigger] b2[k]) by {
                        if k != j {
                            lemma_all_covered(g, bs[i], k);
                        }
                    }
                    assert(all_covered(g, b2));
                    let bs2 = bs.update(i, b2);
                    assert forall|b: int| 0 <= b < bs2.len() implies all_covered(g, #[trigger] bs2[b]) by {
                        if b != i {
                            assert(all_covered(g, bs[b]));
                        }
                    }
                }
            },
            _ => {},
        }
    }
}

/// A copy of a derivation.
pub fn clone_deriv(d: &GrammarDerivation) -> (r: GrammarDerivation)
    ensures
        deriv_view(r) == deriv_view(*d),
    decreases d,
{
    match d {
        GrammarDerivation::Branch { nt, content } => {
            proof {
                assert(decreases_to!(*d => (*d)->Branch_content));
            }
            GrammarDerivation::Branch { nt: nt.clone(), content: clone_derivs(content) }
        },
        GrammarDerivation::Wrapped { transform, content } => {
            proof {
                assert(decreases_to!(*d => (*d)->Wrapped_content));
            }
            GrammarDerivation::Wrapped { transform: *transform, content: clone_derivs(content) }
        },
        GrammarDerivation::Split { branches } => {
            let mut nb: Vec<Vec<GrammarDerivation>> = Vec::new();
            let mut b: usize = 0;
            while b < branches.len()
                invariant
                    (*d) is Split,
                    (*d)->Split_branches == *branches,
                    b <= branches@.len(),
                    nb@.len() == b,
                    forall|k: int| 0 <= k < b ==> derivs_view(#[trigger] nb@[k]) == derivs_view(branches@[k]),
                decreases branches@.len() - b,
            {
                proof {
                    assert(decreases_to!(*d => (*d)->Split_branches));
                    assert(decreases_to!(*branches => branches@));
                    assert(decreases_to!(branches@ => branches@[b as int]));
                }
                nb.push(clone_derivs(&branches[b]));
                b = b + 1;
            }
            let r = GrammarDerivation::Split { branches: nb };
            proof {
                assert(deriv_view(r)->Split_0 =~= deriv_view(*d)->Split_0);
            }
            r
        },
        GrammarDerivation::NTLeaf(nt) => GrammarDerivation::NTLeaf(nt.clone()),
        GrammarDerivation::TLeaf(t) => GrammarDerivation::TLeaf(*t),
    }
}

/// Copies of a list of derivations.
pub fn clone_derivs(c: &Vec<GrammarDerivation>) -> (r: Vec<GrammarDerivation>)
    ensures
        derivs_view(r) == derivs_view(*c),
    decreases c,
{
    let mut out: Vec<GrammarDerivation> = Vec::new();
    let mut i: usize = 0;
    while i < c.len()
        invariant
            i <= c@.len(),
            out@.len() == i,
            forall|k: int| 0 <= k < i ==> deriv_view(#[trigger] out@[k]) == deriv_view(c@[k]),
        decreases c@.len() - i,
    {
        proof {
            assert(decreases_to!(c => c@));
            assert(decreases_to!(c@ => c@[i as int]));
        }
        out.push(clone_deriv(&c[i]));
        i = i + 1;
    }
    assert(derivs_view(out) =~= derivs_view(*c));
    out
}

impl Clone for GrammarDerivation {
    fn clone(&self) -> (r: Self)
        ensures
            deriv_view(r) == deriv_view(*self),
    {
        clone_deriv(self)
    }
}

impl GrammarDerivationGenerator {
    fn exp_rec_children(&self, c: &Vec<GrammarDerivation>, rng: &mut rand::rngs::StdRng, depth: usize) -> (r: Vec<GrammarDerivation>)
        requires
            depth <= self.config.max_depth < usize::MAX,
            self.config.panic_on_bad_production ==> grammar_complete(gen_prods(*self)) && all_covered(
                gen_prods(*self),
                derivs_view(*c),
            ),
        ensures
            all_exp_rec(gen_prods(*self), self.config.max_depth as int, derivs_view(*c), derivs_view(r), depth as int),
        decreases self.config.max_depth + 1 - depth, c, 1int,
    {
        let ghost gp = gen_prods(*self);
        let ghost max = self.config.max_depth as int;
        let ghost cv = derivs_view(*c);
        let mut out: Vec<GrammarDerivation> = Vec::new();
        let mut i: usize = 0;
        while i < c.len()
            invariant
                gp == gen_prods(*self),
                max == self.config.max_depth as int,
                depth <= self.config.max_depth < usize::MAX,
                cv == derivs_view(*c),
                i <= c@.len(),
                out@.len() == i,
                self.config.panic_on_bad_production ==> grammar_complete(gp) && all_covered(gp, cv),
                forall|k: int| 0 <= k < i ==> exp_rec(gp, max, cv[k], deriv_view(#[trigger] out@[k]), depth as int),
            decreases c@.len() - i,
        {
            proof {
                assert(decreases_to!(c => c@));
                assert(decreases_to!(c@ => c@[i as int]));
                assert(cv[i as int] == deriv_view(c@[i as int]));
                if self.config.panic_on_bad_production {
                    lemma_all_covered(gp, cv, i as int);
                }
            }
            let e = self.exp_rec_exec(&c[i], rng, depth);
            out.push(e);
            i = i + 1;
        }
        proof {
            assert forall|k: int| 0 <= k < cv.len() implies exp_rec(gp, max, #[trigger] cv[k], derivs_view(out)[k], depth as int) by {
                assert(derivs_view(out)[k] == deriv_view(out@[k]));
            }
            lemma_all_exp_rec(gp, max, cv, derivs_view(out), depth as int);
        }
        out
    }

    fn exp_rec_exec(&self, d: &GrammarDerivation, rng: &mut rand::rngs::StdRng, depth: usize) -> (r: GrammarDerivation)
        requires
            self.config.max_depth < usize::MAX,
            self.config.panic_on_bad_production ==> grammar_complete(gen_prods(*self)) && nts_covered(
                gen_prods(*self),
                deriv_view(*d),
            ),
        ensures
            exp_rec(gen_prods(*self), self.config.max_depth as int, deriv_view(*d), deriv_view(r), depth as int),
        decreases self.config.max_depth + 1 - depth, d, 0int,
    {
        let ghost gp = gen_prods(*self);
        let ghost max = self.config.max_depth as int;
        let ghost dv = deriv_view(*d);
        if depth > self.config.max_depth {
            return clone_deriv(d);
        }
        proof {
            if self.config.panic_on_bad_production {
                lemma_covered_parts(gp, dv);
            }
        }
        let r = match d {
            GrammarDerivation::NTLeaf(nt) => {
                let mid = self.expand_nonterminal(nt, rng);
                proof {
                    if self.config.panic_on_bad_production {
                        lemma_expansion_covered(gp, nt_view(*nt), deriv_view(mid));
                    }
                }
                let ghost mv = deriv_view(mid);
                let e = self.exp_rec_exec(&mid, rng, depth + 1);
                proof {
                    assert(nt_expansion(gp, nt_view(*nt), mv) && exp_rec(gp, max, mv, deriv_view(e), depth + 1));
                    assert(dv->NTLeaf_0 == nt_view(*nt));
                    lemma_exp_rec_parts(gp, max, dv, deriv_view(e), depth as int);
                }
                e
            },
            GrammarDerivation::TLeaf(t) => GrammarDerivation::TLeaf(*t),
            GrammarDerivation::Branch { nt, content } => {
                proof {
                    assert(decreases_to!(*d => (*d)->Branch_content));
                }
                let nc = self.exp_rec_children(content, rng, depth);
                GrammarDerivation::Branch { nt: nt.clone(), content: nc }
            },
            GrammarDerivation::Wrapped { transform, content } => {
                proof {
                    assert(decreases_to!(*d => (*d)->Wrapped_content));
                }
                let nc = self.exp_rec_children(content, rng, depth);
                GrammarDerivation::Wrapped { transform: *transform, content: nc }
            },
            GrammarDerivation::Split { branches } => {
                let mut nb: Vec<Vec<GrammarDerivation>> = Vec::new();
                let mut b: usize = 0;
                while b < branches.len()
                    invariant
                        gp == gen_prods(*self),
                        max == self.config.max_depth as int,
                        depth <= self.config.max_depth < usize::MAX,
                        (*d) is Split,
                        (*d)->Split_branches == *branches,
                        dv == deriv_view(*d),
                        b <= branches@.len(),
                        nb@.len() == b,
                        self.config.panic_on_bad_production ==> grammar_complete(gp) && forall|k: int|
                            0 <= k < dv->Split_0.len() ==> all_covered(gp, #[trigger] dv->Split_0[k]),
                        forall|k: int|
                            0 <= k < b ==> all_exp_rec(gp, max, dv->Split_0[k], derivs_view(#[trigger] nb@[k]), depth as int),
                    decreases branches@.len() - b,
                {
                    proof {
                        assert(decreases_to!(*d => (*d)->Split_branches));
                        assert(decreases_to!(*branches => branches@));
                        assert(decreases_to!(branches@ => branches@[b as int]));
                        assert(dv->Split_0[b as int] == derivs_view(branches@[b as int]));
                    }
                    nb.push(self.exp_rec_children(&branches[b], rng, depth));
                    b = b + 1;
                }
                let r = GrammarDerivation::Split { branches: nb };
                proof {
                    let e = deriv_view(r);
                    assert forall|k: int| 0 <= k < dv->Split_0.len() implies all_exp_rec(
                        gp,
                        max,
                        #[trigger] dv->Split_0[k],
                        e->Split_0[k],
                        depth as int,
                    ) by {
                        assert(e->Split_0[k] == derivs_view(nb@[k]));
                    }
                }
                r
            },
        };
        proof {
            lemma_exp_rec_parts(gp, max, dv, deriv_view(r), depth as int);
        }
        r
    }

    /// Expand the derivation recursively from `depth` on: every unexpanded leaf is expanded,
    /// and so is what its expansion holds, one level deeper each time, up to `max_depth`.
    pub fn expand_derivation_recursive(&self, derivation: &mut GrammarDerivation, rng: &mut rand::rngs::StdRng, depth: usize)
        requires
            self.config.max_depth < usize::MAX,
            self.config.panic_on_bad_production ==> grammar_complete(gen_prods(*self)) && nts_covered(
                gen_prods(*self),
                deriv_view(*old(derivation)),
            ),
        ensures
            exp_rec(
                gen_prods(*self),
                self.config.max_depth as int,
                deriv_view(*old(derivation)),
                deriv_view(*final(derivation)),
                depth as int,
            ),
    {
        let r = self.exp_rec_exec(derivation, rng, depth);
        *derivation = r;
    }
}


/// The non-terminal at the root of a node, for a branch or an unexpanded leaf.
pub open spec fn root_nt(n: DerivV) -> Option<Seq<char>> {
    match n {
        DerivV::Branch(nt, _) => Some(nt),
        DerivV::NTLeaf(nt) => Some(nt),
        _ => None,
    }
}

/// How many nodes of `other` could take the place of the node of `d` at `path` in a
/// crossover: those holding the same non-terminal; none when the node at `path` holds none.
pub open spec fn crossover_candidates(d: DerivV, other: DerivV, path: Seq<usize>) -> int {
    match node_at(d, path) {
        Some(n) => match root_nt(n) {
            Some(nt) => nt_nodes(other, 0, Some(nt)).len() as int,
            None => 0,
        },
        None => 0,
    }
}

/// One crossover: `d` with its node at `path` replaced by the `k`-th node of `other`, in the
/// order of the search, that holds the same non-terminal; `None` when there is no such node.
pub open spec fn crossover_spec(d: DerivV, other: DerivV, path: Seq<usize>, k: int) -> Option<DerivV> {
    match node_at(d, path) {
        Some(n) => match root_nt(n) {
            Some(nt) => {
                let cands = nt_nodes(other, 0, Some(nt));
                if 0 <= k < cands.len() {
                    match node_at(other, cands[k].0) {
                        Some(m) => Some(replaced_at(d, path, m)),
                        None => None,
                    }
                } else {
                    None
                }
            },
            None => None,
        },
        None => None,
    }
}

/// `e` is `d` with the non-terminal node at `path` expanded anew in its place, and then the
/// whole derivation expanded recursively from `depth` on; `d` itself when there is no such
/// node.
pub open spec fn re_expanded(g: Seq<(Seq<char>, Seq<PrimV>)>, max: int, d: DerivV, e: DerivV, path: Seq<usize>, depth: int) -> bool {
    match node_at(d, path) {
        Some(n) => match root_nt(n) {
            Some(nt) => exists|mid: DerivV|
                #[trigger] nt_expansion(g, nt, mid) && exp_rec(g, max, replaced_at(d, path, mid), e, depth),
            None => e == d,
        },
        None => e == d,
    }
}

proof fn lemma_re_expanded_intro(
    g: Seq<(Seq<char>, Seq<PrimV>)>,
    max: int,
    d: DerivV,
    e: DerivV,
    path: Seq<usize>,
    depth: int,
    nt: Seq<char>,
    mid: DerivV,
)
    requires
        node_at(d, path) is Some,
        root_nt(node_at(d, path)->0) == Some(nt),
        nt_expansion(g, nt, mid),
        exp_rec(g, max, replaced_at(d, path, mid), e, depth),
    ensures
        re_expanded(g, max, d, e, path, depth),
{
    match node_at(d, path) {
        Some(n) => {
            match root_nt(n) {
                Some(x) => {
                    assert(x == nt);
                    assert(nt_expansion(g, x, mid));
                },
                None => {},
            }
        },
        None => {},
    }
}

impl GrammarDerivationGenerator {
    /// Pick a non-terminal node at random, expand its non-terminal anew in its place, and
    /// then expand the derivation recursively from the depth of that node.
    pub fn re_expand_random_nt(&self, derivation: &mut GrammarDerivation, rng: &mut rand::rngs::StdRng)
        requires
            self.config.max_depth < usize::MAX,
            self.config.panic_on_bad_production ==> grammar_complete(gen_prods(*self)) && nts_covered(
                gen_prods(*self),
                deriv_view(*old(derivation)),
            ),
        ensures
            nt_nodes(deriv_view(*old(derivation)), 0, None).len() == 0 ==> deriv_view(*final(derivation))
                == deriv_view(*old(derivation)),
            nt_nodes(deriv_view(*old(derivation)), 0, None).len() > 0 ==> exists|t: int|
                0 <= t < nt_nodes(deriv_view(*old(derivation)), 0, None).len() && re_expanded(
                    gen_prods(*self),
                    self.config.max_depth as int,
                    deriv_view(*old(derivation)),
                    deriv_view(*final(derivation)),
                    (#[trigger] nt_nodes(deriv_view(*old(derivation)), 0, None)[t]).0,
                    nt_nodes(deriv_view(*old(derivation)), 0, None)[t].1,
                ),
    {
        let ghost gp = gen_prods(*self);
        let ghost max = self.config.max_depth as int;
        let ghost d0 = deriv_view(*derivation);
        let ghost nodes = nt_nodes(d0, 0, None);
        let picked = derivation.pick_random_nt_mut(rng, None);
        assert(filter_view(None) == None::<Seq<char>>);
        match picked {
            None => {},
            Some((path, depth)) => {
                let ghost t = choose|t: int| 0 <= t < nodes.len() && #[trigger] nodes[t] == (path@, depth as int);
                let sub = derivation.subtree_at(&path);
                let target_nt = match sub {
                    Some(sub) => match sub.get_nt_root() {
                        Some(nt) => Some(nt.clone()),
                        None => {
                            assert(root_nt(deriv_view(*sub)) is None);
                            None
                        },
                    },
                    None => None,
                };
                assert(target_nt is None ==> (node_at(d0, path@) is None || root_nt(node_at(d0, path@)->0) is None));
                match target_nt {
                    Some(nt) => {
                        proof {
                            let n = node_at(d0, path@)->0;
                            assert(root_nt(n) == Some(nt_view(nt)));
                            if self.config.panic_on_bad_production {
                                lemma_node_covered(gp, d0, path@);
                                lemma_covered_parts(gp, n);
                            }
                        }
                        let new_sub = self.expand_nonterminal(&nt, rng);
                        let ghost mid = deriv_view(new_sub);
                        proof {
                            if self.config.panic_on_bad_production {
                                lemma_expansion_covered(gp, nt_view(nt), mid);
                                lemma_replace_covered(gp, d0, path@, mid);
                            }
                        }
                        derivation.replace_at(&path, new_sub);
                        self.expand_derivation_recursive(derivation, rng, depth);
                        proof {
                            assert(nt_expansion(gp, nt_view(nt), mid) && exp_rec(gp, max, replaced_at(d0, path@, mid), deriv_view(*derivation), depth as int));
                            let n = node_at(d0, path@)->0;
                            assert(node_at(d0, path@) == Some(n));
                            assert(root_nt(n) == Some(nt_view(nt)));
                            assert(exists|m: DerivV|
                                #[trigger] nt_expansion(gp, nt_view(nt), m) && exp_rec(gp, max, replaced_at(d0, path@, m), deriv_view(*derivation), depth as int));
                            assert(nodes[t].0 == path@ && nodes[t].1 == depth as int);
                            lemma_re_expanded_intro(gp, max, d0, deriv_view(*derivation), path@, depth as int, nt_view(nt), mid);
                            assert(re_expanded(gp, max, d0, deriv_view(*derivation), nodes[t].0, nodes[t].1));
                        }
                    },
                    None => {
                        proof {
                            assert(deriv_view(*derivation) == d0);
                            assert(nodes[t].0 == path@);
                            match node_at(d0, path@) {
                                Some(n) => {
                                    assert(root_nt(n) is None);
                                    assert(re_expanded(gp, max, d0, d0, path@, depth as int));
                                },
                                None => {
                                    assert(re_expanded(gp, max, d0, d0, path@, depth as int));
                                },
                            }
                            assert(re_expanded(gp, max, d0, deriv_view(*derivation), nodes[t].0, nodes[t].1));
                        }
                    },
                }
            },
        }
    }
}


/// No branch of `d` lies at or below depth `max`, counting `d` at depth `depth`: a branch
/// adds a level to what it holds, wrapped passages and splits do not.
pub open spec fn branches_within(d: DerivV, depth: int, max: int) -> bool
    decreases d, 0int,
{
    match d {
        DerivV::Branch(_, c) => depth < max && all_within(c, depth + 1, max),
        DerivV::Wrapped(_, c) => all_within(c, depth, max),
        DerivV::Split(bs) => forall|b: int| 0 <= b < bs.len() ==> all_within(#[trigger] bs[b], depth, max),
        DerivV::NTLeaf(_) => true,
        DerivV::TLeaf(_) => true,
    }
}

/// Every one of the derivations keeps its branches above depth `max`.
pub open spec fn all_within(c: Seq<DerivV>, depth: int, max: int) -> bool
    decreases c, 1int,
{
    forall|i: int| 0 <= i < c.len() ==> branches_within(#[trigger] c[i], depth, max)
}

/// After pruning, no branch lies at or below the maximum depth.
pub proof fn lemma_pruned_within(d: DerivV, depth: int, max: int)
    ensures
        branches_within(pruned(d, depth, max), depth, max),
    decreases d,
{
    let r = pruned(d, depth, max);
    match d {
        DerivV::Branch(nt, c) => {
            if depth < max {
                let rc = r->Branch_1;
                assert forall|i: int| 0 <= i < rc.len() implies branches_within(#[trigger] rc[i], depth + 1, max) by {
                    lemma_pruned_within(c[i], depth + 1, max);
                }
            }
        },
        DerivV::Wrapped(t, c) => {
            let rc = r->Wrapped_1;
            assert forall|i: int| 0 <= i < rc.len() implies branches_within(#[trigger] rc[i], depth, max) by {
                lemma_pruned_within(c[i], depth, max);
            }
        },
        DerivV::Split(bs) => {
            let rbs = r->Split_0;
            assert forall|b: int| 0 <= b < rbs.len() implies all_within(#[trigger] rbs[b], depth, max) by {
                assert forall|i: int| 0 <= i < rbs[b].len() implies branches_within(#[trigger] rbs[b][i], depth, max) by {
                    lemma_pruned_within(bs[b][i], depth, max);
                }
            }
        },
        DerivV::NTLeaf(_) => {},
        DerivV::TLeaf(_) => {},
    }
}

/// Pruning leaves a derivation whose branches all lie above the maximum depth unchanged.
pub proof fn lemma_pruned_unchanged(d: DerivV, depth: int, max: int)
    requires
        branches_within(d, depth, max),
    ensures
        pruned(d, depth, max) == d,
    decreases d,
{
    let r = pruned(d, depth, max);
    match d {
        DerivV::Branch(nt, c) => {
            let rc = r->Branch_1;
            assert forall|i: int| 0 <= i < c.len() implies #[trigger] rc[i] == c[i] by {
                assert(branches_within(c[i], depth + 1, max));
                lemma_pruned_unchanged(c[i], depth + 1, max);
            }
            assert(rc =~= c);
        },
        DerivV::Wrapped(t, c) => {
            let rc = r->Wrapped_1;
            assert forall|i: int| 0 <= i < c.len() implies #[trigger] rc[i] == c[i] by {
                assert(branches_within(c[i], depth, max));
                lemma_pruned_unchanged(c[i], depth, max);
            }
            assert(rc =~= c);
        },
        DerivV::Split(bs) => {
            let rbs = r->Split_0;
            assert forall|b: int| 0 <= b < bs.len() implies #[trigger] rbs[b] == bs[b] by {
                assert(all_within(bs[b], depth, max));
                assert forall|i: int| 0 <= i < bs[b].len() implies #[trigger] rbs[b][i] == bs[b][i] by {
                    assert(branches_within(bs[b][i], depth, max));
                    lemma_pruned_unchanged(bs[b][i], depth, max);
                }
                assert(rbs[b] =~= bs[b]);
            }
            assert(rbs =~= bs);
        },
        DerivV::NTLeaf(_) => {},
        DerivV::TLeaf(_) => {},
    }
}

/// Pruning twice prunes no more than pruning once: a second `prune` leaves the derivation as
/// the first left it.
pub proof fn lemma_prune_idempotent(d: DerivV, depth: int, max: int)
    ensures
        pruned(pruned(d, depth, max), depth, max) == pruned(d, depth, max),
{
    lemma_pruned_within(d, depth, max);
    lemma_pruned_unchanged(pruned(d, depth, max), depth, max);
}

/// Every list of children in `d` has a length that a `usize` can count, as in any derivation
/// built from vectors.
pub open spec fn sizes_fit(d: DerivV) -> bool
    decreases d, 0int,
{
    match d {
        DerivV::Branch(_, c) => all_sizes_fit(c),
        DerivV::Wrapped(_, c) => all_sizes_fit(c),
        DerivV::Split(bs) => bs.len() <= usize::MAX && forall|b: int| 0 <= b < bs.len() ==> all_sizes_fit(#[trigger] bs[b]),
        DerivV::NTLeaf(_) => true,
        DerivV::TLeaf(_) => true,
    }
}

/// The list and every derivation in it have lengths that a `usize` can count.
pub open spec fn all_sizes_fit(c: Seq<DerivV>) -> bool
    decreases c, 1int,
{
    c.len() <= usize::MAX && forall|i: int| 0 <= i < c.len() ==> sizes_fit(#[trigger] c[i])
}

/// At position `p` of `d` stands a non-terminal node that passes the filter.
pub open spec fn holds_nt_at(d: DerivV, p: Seq<usize>, f: Option<Seq<char>>) -> bool {
    node_at(d, p) matches Some(n) && root_nt(n) matches Some(nt) && passes(nt, f)
}

/// Every list of children in a derivation built from vectors has a length that a `usize`
/// can count.
pub proof fn lemma_view_sizes_fit(d: GrammarDerivation)
    ensures
        sizes_fit(deriv_view(d)),
    decreases d,
{
    match d {
        GrammarDerivation::Branch { nt, content } => {
            lemma_views_sizes_fit(content);
        },
        GrammarDerivation::Wrapped { transform, content } => {
            lemma_views_sizes_fit(content);
        },
        GrammarDerivation::Split { branches } => {
            let bs = deriv_view(d)->Split_0;
            assert(branches.len() == branches@.len());
            assert forall|b: int| 0 <= b < bs.len() implies all_sizes_fit(#[trigger] bs[b]) by {
                assert(decreases_to!(branches => branches@));
                assert(decreases_to!(branches@ => branches@[b]));
                lemma_views_sizes_fit(branches@[b]);
            }
        },
        GrammarDerivation::NTLeaf(_) => {},
        GrammarDerivation::TLeaf(_) => {},
    }
}

/// The same for every derivation of a vector, and for the vector itself.
pub proof fn lemma_views_sizes_fit(v: Vec<GrammarDerivation>)
    ensures
        all_sizes_fit(derivs_view(v)),
    decreases v,
{
    assert(v.len() == v@.len());
    assert forall|i: int| 0 <= i < derivs_view(v).len() implies sizes_fit(#[trigger] derivs_view(v)[i]) by {
        assert(decreases_to!(v => v@));
        assert(decreases_to!(v@ => v@[i]));
        lemma_view_sizes_fit(v@[i]);
    }
}

/// Every node that the search lists stands at its position, and is a non-terminal node that
/// passes the filter: a filter on a non-terminal only ever yields nodes of that non-terminal.
pub proof fn lemma_nt_nodes_found(d: DerivV, depth: int, f: Option<Seq<char>>)
    requires
        sizes_fit(d),
    ensures
        forall|t: int|
            0 <= t < nt_nodes(d, depth, f).len() ==> holds_nt_at(d, (#[trigger] nt_nodes(d, depth, f)[t]).0, f),
    decreases d, 0int,
{
    let ns = nt_nodes(d, depth, f);
    match d {
        DerivV::Branch(nt, c) => {
            let head = if passes(nt, f) {
                seq![(Seq::<usize>::empty(), depth)]
            } else {
                Seq::<(Seq<usize>, int)>::empty()
            };
            let tail = children_nodes(c, next_depth(depth), f, Seq::empty());
            assert(ns == head + tail);
            lemma_children_nodes_found(c, next_depth(depth), f, Seq::empty());
            assert forall|t: int| 0 <= t < ns.len() implies holds_nt_at(d, (#[trigger] ns[t]).0, f) by {
                if t < head.len() {
                    assert(ns[t] == head[t]);
                    assert(node_at(d, Seq::<usize>::empty()) == Some(d));
                } else {
                    let el = tail[t - head.len()].0;
                    assert(ns[t] == tail[t - head.len()]);
                    assert(el.len() > 0);
                    assert(el.take(0) =~= Seq::<usize>::empty());
                    assert(node_at(d, el) == node_at(c[el[0] as int], el.skip(1)));
                }
            }
        },
        DerivV::Wrapped(t0, c) => {
            let tail = children_nodes(c, depth, f, Seq::empty());
            lemma_children_nodes_found(c, depth, f, Seq::empty());
            assert forall|t: int| 0 <= t < ns.len() implies holds_nt_at(d, (#[trigger] ns[t]).0, f) by {
                let el = tail[t].0;
                assert(el.len() > 0);
                assert(node_at(d, el) == node_at(c[el[0] as int], el.skip(1)));
            }
        },
        DerivV::Split(bs) => {
            lemma_split_nodes_found(bs, depth, f);
            assert(ns == split_nodes(bs, depth, f));
            assert forall|t: int| 0 <= t < ns.len() implies holds_nt_at(d, (#[trigger] ns[t]).0, f) by {
                let el = ns[t].0;
                assert(ns[t] == split_nodes(bs, depth, f)[t]);
                assert(el.len() >= 2);
                assert(node_at(d, el) == node_at(bs[el[0] as int][el[1] as int], el.skip(2)));
            }
        },
        DerivV::NTLeaf(nt) => {
            assert forall|t: int| 0 <= t < ns.len() implies holds_nt_at(d, (#[trigger] ns[t]).0, f) by {
                assert(node_at(d, Seq::<usize>::empty()) == Some(d));
            }
        },
        DerivV::TLeaf(_) => {},
    }
}

proof fn lemma_children_nodes_found(c: Seq<DerivV>, depth: int, f: Option<Seq<char>>, pre: Seq<usize>)
    requires
        all_sizes_fit(c),
    ensures
        forall|t: int|
            0 <= t < children_nodes(c, depth, f, pre).len() ==> {
                let el = (#[trigger] children_nodes(c, depth, f, pre)[t]).0;
                &&& el.len() > pre.len()
                &&& el.take(pre.len() as int) == pre
                &&& el[pre.len() as int] < c.len()
                &&& holds_nt_at(c[el[pre.len() as int] as int], el.skip(pre.len() as int + 1), f)
            },
    decreases c, 1int,
{
    if c.len() > 0 {
        assert(decreases_to!(c => c.drop_last()));
        assert(decreases_to!(c => c[c.len() - 1]));
        let front = children_nodes(c.drop_last(), depth, f, pre);
        let k = (c.len() - 1) as usize;
        let last = nt_nodes(c[c.len() - 1], depth, f);
        let back = prefixed(last, pre.push(k));
        let all = children_nodes(c, depth, f, pre);
        assert(all == front + back);
        assert(sizes_fit(c[c.len() - 1]));
        assert forall|i: int| 0 <= i < c.drop_last().len() implies sizes_fit(#[trigger] c.drop_last()[i]) by {
            assert(sizes_fit(c[i]));
        }
        lemma_children_nodes_found(c.drop_last(), depth, f, pre);
        lemma_nt_nodes_found(c[c.len() - 1], depth, f);
        assert forall|t: int| 0 <= t < all.len() implies {
            let el = (#[trigger] all[t]).0;
            &&& el.len() > pre.len()
            &&& el.take(pre.len() as int) == pre
            &&& el[pre.len() as int] < c.len()
            &&& holds_nt_at(c[el[pre.len() as int] as int], el.skip(pre.len() as int + 1), f)
        } by {
            let el = all[t].0;
            if t < front.len() {
                assert(all[t] == front[t]);
                let j = el[pre.len() as int] as int;
                assert(holds_nt_at(c.drop_last()[j], el.skip(pre.len() as int + 1), f));
                assert(c.drop_last()[j] == c[j]);
            } else {
                let u = t - front.len();
                assert(all[t] == back[u]);
                let p = last[u].0;
                assert(el == pre.push(k) + p);
                assert(el.take(pre.len() as int) =~= pre);
                assert(el[pre.len() as int] == k);
                assert(el.skip(pre.len() as int + 1) =~= p);
                assert(holds_nt_at(c[c.len() - 1], p, f));
                assert(el[pre.len() as int] as int == c.len() - 1);
                assert(holds_nt_at(c[el[pre.len() as int] as int], el.skip(pre.len() as int + 1), f));
            }
        }
    }
}

proof fn lemma_split_nodes_found(bs: Seq<Seq<DerivV>>, depth: int, f: Option<Seq<char>>)
    requires
        bs.len() <= usize::MAX,
        forall|b: int| 0 <= b < bs.len() ==> all_sizes_fit(#[trigger] bs[b]),
    ensures
        forall|t: int|
            0 <= t < split_nodes(bs, depth, f).len() ==> {
                let el = (#[trigger] split_nodes(bs, depth, f)[t]).0;
                &&& el.len() >= 2
                &&& el[0] < bs.len()
                &&& el[1] < bs[el[0] as int].len()
                &&& holds_nt_at(bs[el[0] as int][el[1] as int], el.skip(2), f)
            },
    decreases bs, 2int,
{
    if bs.len() > 0 {
        assert(decreases_to!(bs => bs.drop_last()));
        assert(decreases_to!(bs => bs[bs.len() - 1]));
        let b = (bs.len() - 1) as usize;
        let pre = seq![b];
        let front = split_nodes(bs.drop_last(), depth, f);
        let back = children_nodes(bs[bs.len() - 1], depth, f, pre);
        let all = split_nodes(bs, depth, f);
        assert(all == front + back);
        assert(all_sizes_fit(bs[bs.len() - 1]));
        assert forall|i: int| 0 <= i < bs.drop_last().len() implies all_sizes_fit(#[trigger] bs.drop_last()[i]) by {
            assert(all_sizes_fit(bs[i]));
        }
        lemma_split_nodes_found(bs.drop_last(), depth, f);
        lemma_children_nodes_found(bs[bs.len() - 1], depth, f, pre);
        assert forall|t: int| 0 <= t < all.len() implies {
            let el = (#[trigger] all[t]).0;
            &&& el.len() >= 2
            &&& el[0] < bs.len()
            &&& el[1] < bs[el[0] as int].len()
            &&& holds_nt_at(bs[el[0] as int][el[1] as int], el.skip(2), f)
        } by {
            let el = all[t].0;
            if t < front.len() {
                assert(all[t] == front[t]);
                assert(bs.drop_last()[el[0] as int] == bs[el[0] as int]);
                assert(holds_nt_at(bs.drop_last()[el[0] as int][el[1] as int], el.skip(2), f));
            } else {
                let u = t - front.len();
                assert(all[t] == back[u]);
                assert(el.take(1) == pre);
                assert(el[0] == el.take(1)[0]);
                assert(el[0] == b);
                assert(holds_nt_at(bs[bs.len() - 1][el[1] as int], el.skip(pre.len() as int + 1), f));
                assert(el.skip(pre.len() as int + 1) == el.skip(2));
            }
        }
    }
}

} // verus!
