use vstd::prelude::*;
use crate::music_primitives::{Pitch, TimeSignature};
use crate::composition::{
    Composition,
    CompositionV,
    Instrument,
    MAX_VOLUME,
    TrackV,
    Volume,
    all_ends_fit,
    pad_fits,
    pad_track,
    round_fits,
    rounded_end,
    tracks_end,
};
use crate::cfg::{ComposeError, GrammarDerivationConfig, Performer, PrimV, SymbolV, ms_view, nt_view};
use crate::scan::{GrammarScanner, ScanError, Scanner, grammar_ok, grammar_view, scan_grammar};
use crate::generate::{grammar_complete, has_production, prods_view, rewrites_n};
use crate::compose::{Outcome, compose_spec, result_comp};

verus! {

#[verifier::external_type_specification]
#[verifier::external_body]
pub struct ExIoError(std::io::Error);

/// What can go wrong on the way from a grammar file to a composition: reading the file,
/// reading the grammar, or composing.
#[derive(Debug)]
pub enum RenderError {
    IoError(std::io::Error),
    ScanError(ScanError),
    ComposeError(ComposeError),
}

impl From<std::io::Error> for RenderError {
    fn from(err: std::io::Error) -> (r: Self) {
        RenderError::IoError(err)
    }
}

impl vstd::std_specs::convert::FromSpecImpl<std::io::Error> for RenderError {
    open spec fn obeys_from_spec() -> bool {
        true
    }

    open spec fn from_spec(v: std::io::Error) -> Self {
        RenderError::IoError(v)
    }
}

impl From<ScanError> for RenderError {
    fn from(err: ScanError) -> (r: Self) {
        RenderError::ScanError(err)
    }
}

impl vstd::std_specs::convert::FromSpecImpl<ScanError> for RenderError {
    open spec fn obeys_from_spec() -> bool {
        true
    }

    open spec fn from_spec(v: ScanError) -> Self {
        RenderError::ScanError(v)
    }
}

impl From<ComposeError> for RenderError {
    fn from(err: ComposeError) -> (r: Self) {
        RenderError::ComposeError(err)
    }
}

impl vstd::std_specs::convert::FromSpecImpl<ComposeError> for RenderError {
    open spec fn obeys_from_spec() -> bool {
        true
    }

    open spec fn from_spec(v: ComposeError) -> Self {
        RenderError::ComposeError(v)
    }
}

/// The music string that a grammar starts from: its start symbol alone.
pub open spec fn axiom_string(start: Seq<char>) -> Seq<PrimV> {
    seq![PrimV::Simple(SymbolV::NT(start))]
}

/// The performer that a grammar's music is composed with: a piano at half volume, on
/// middle C.
pub open spec fn default_performer() -> Performer {
    Performer { instrument: Instrument::Piano, volume: Volume(MAX_VOLUME / 2), pitch: Pitch::spec_new(4, 0) }
}

/// Padding the tracks of the composition out to whole measures can be computed.
pub open spec fn padding_fits(c: CompositionV) -> bool {
    &&& all_ends_fit(c.tracks)
    &&& tracks_end(c.tracks) matches Some(e) ==> {
        &&& round_fits(e, c.time_signature)
        &&& forall|k: int|
            0 <= k < c.tracks.len() ==> pad_fits(#[trigger] c.tracks[k], rounded_end(e, c.time_signature))
    }
}

/// The composition with every track padded with a rest out to the end of its last measure.
pub open spec fn padded(c: CompositionV) -> CompositionV {
    match tracks_end(c.tracks) {
        None => c,
        Some(e) => CompositionV {
            tracks: c.tracks.map_values(|t: TrackV| pad_track(t, rounded_end(e, c.time_signature))),
            ..c
        },
    }
}

/// Every music string that the grammar in `text` can produce under `config` can be composed
/// and, when asked for, padded out, without leaving the integers of the library; and a
/// grammar that must not meet an unknown non-terminal has a production for every one.
pub open spec fn composable_text(text: Seq<char>, config: GrammarDerivationConfig) -> bool {
    match scan_grammar(text) {
        None => true,
        Some((start, prods, ts)) => {
            &&& config.panic_on_bad_production ==> grammar_complete(prods) && has_production(prods, start)
            &&& forall|ms: Seq<PrimV>|
                #[trigger] rewrites_n(prods, axiom_string(start), ms, config.iterations as nat) ==> {
                    &&& !(compose_spec(ms, ts, default_performer()) is TooLarge)
                    &&& config.rounded ==> (compose_spec(ms, ts, default_performer()) matches Outcome::Done(st)
                        ==> padding_fits(result_comp(st, ts)))
                }
        },
    }
}

/// `r` is what composing the grammar in `text` can give: an error for text that is no
/// grammar; else, for some music string that the grammar produces, its composition (padded
/// out when asked for), or the error for branches of a split of different lengths.
pub open spec fn text_composed(text: Seq<char>, config: GrammarDerivationConfig, r: Result<Composition, RenderError>) -> bool {
    match scan_grammar(text) {
        None => r matches Err(RenderError::ScanError(_)),
        Some((start, prods, ts)) => exists|ms: Seq<PrimV>|
            #[trigger] rewrites_n(prods, axiom_string(start), ms, config.iterations as nat) && match compose_spec(
                ms,
                ts,
                default_performer(),
            ) {
                Outcome::Done(st) => r matches Ok(c) && c@ == (if config.rounded {
                    padded(result_comp(st, ts))
                } else {
                    result_comp(st, ts)
                }),
                Outcome::Mismatch => r matches Err(RenderError::ComposeError(ComposeError::MismatchedLengths(_))),
                Outcome::TooLarge => false,
            },
    }
}

/// Read the grammar in `text`, produce its music and compose it with the default performer;
/// with `config.rounded`, pad every track out to the end of the last measure.
pub fn compose_from_text(text: &str, config: GrammarDerivationConfig, rng: &mut rand::rngs::StdRng) -> (r: Result<Composition, RenderError>)
    requires
        grammar_ok(text@),
        composable_text(text@, config),
    ensures
        text_composed(text@, config, r),
{
    let scanned = GrammarScanner.scan(text);
    let grammar = match scanned {
        Ok((g, _rest)) => g,
        Err(e) => {
            return Err(RenderError::ScanError(e));
        },
    };
    let ghost gv = grammar_view(grammar);
    assert(prods_view(grammar.productions@) =~= gv.1);
    let final_string = grammar.produce(&config, rng);
    let ghost ms = ms_view(final_string);
    assert(rewrites_n(gv.1, axiom_string(gv.0), ms, config.iterations as nat));
    let performer = Performer::default();
    proof {
        Pitch::lemma_spec_new(4, 0);
        Pitch::lemma_pitch_eq(performer.pitch, Pitch::spec_new(4, 0));
    }
    assert(performer == default_performer());
    let composed = final_string.compose_v2(grammar.time_signature, performer);
    let mut composition = match composed {
        Ok(c) => c,
        Err(e) => {
            return Err(RenderError::ComposeError(e));
        },
    };
    if config.rounded {
        let _ = composition.add_rests_to_last_measure();
        assert(composition@ =~= padded(result_comp(compose_spec(ms, gv.2, default_performer())->Done_0, gv.2)));
    }
    Ok(composition)
}

/// Read the grammar in `text`.
pub fn grammar_from_text(text: &str) -> (r: Result<crate::cfg::Grammar, RenderError>)
    requires
        grammar_ok(text@),
    ensures
        match scan_grammar(text@) {
            None => r matches Err(RenderError::ScanError(_)),
            Some(g) => r matches Ok(grammar) && grammar_view(grammar) == g,
        },
{
    match GrammarScanner.scan(text) {
        Ok((g, _rest)) => Ok(g),
        Err(e) => Err(RenderError::ScanError(e)),
    }
}

} // verus!
