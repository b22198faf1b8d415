use vstd::prelude::*;
use vstd::string::StringExecFns;
use vstd::string::StrSliceExecFns;
use crate::text::{push_char, lower_spec, to_ascii_lower, str_to_chars, chars_start_with};
use crate::scan_text::{
    lemma_parse_signed_range,
    parse_unsigned,
    parse_signed,
    parse_unsigned_in,
    parse_signed_in,
    all_digits,
    digits_value,
};
use crate::ratio::{Ratio, SignedRatio};
use crate::music_primitives::{
    Duration,
    NoteValue,
    Pitch,
    PitchClass,
    TimeSignature,
    pitch_class_num,
};
use crate::composition::{Instrument, Volume, TimeCompression, parse_instrument_spec};
use crate::cfg::{
    MetaControl,
    MusicTransform,
    Terminal,
    TerminalNote,
    Symbol,
    SymbolV,
    NonTerminal,
    symbol_view,
    Production,
    production_view,
    Grammar,
    MusicPrimitive,
    MusicString,
    PrimV,
    prim_view,
    ms_view,
};
use crate::scan_text::{leading_ws, skip_ws, skip_ws_back, trim_spec, trim_start_spec, trailing_ws};

verus! {

/// What `char::is_alphabetic` says of a character (the Unicode Alphabetic property).
pub uninterp spec fn char_is_alphabetic(c: char) -> bool;

/// What `char::is_alphanumeric` says of a character (Alphabetic or Numeric).
pub uninterp spec fn char_is_alphanumeric(c: char) -> bool;

/// An ASCII letter, `A` to `Z` or `a` to `z`.
pub open spec fn is_ascii_letter(c: char) -> bool {
    ('a' <= c && c <= 'z') || ('A' <= c && c <= 'Z')
}

/// A letter: among ASCII characters exactly `A` to `Z` and `a` to `z`; beyond ASCII, what
/// `char::is_alphabetic` says.
pub open spec fn is_letter(c: char) -> bool {
    if c <= '\x7f' {
        is_ascii_letter(c)
    } else {
        char_is_alphabetic(c)
    }
}

/// A letter or digit: among ASCII characters exactly the letters and `0` to `9`; beyond
/// ASCII, what `char::is_alphanumeric` says.
pub open spec fn is_letter_or_digit(c: char) -> bool {
    if c <= '\x7f' {
        is_ascii_letter(c) || ('0' <= c && c <= '9')
    } else {
        char_is_alphanumeric(c)
    }
}

/// Decides `is_letter`, asking std only beyond ASCII.
fn letter_exec(c: char) -> (b: bool)
    ensures
        b == is_letter(c),
{
    if c <= '\x7f' {
        ('a' <= c && c <= 'z') || ('A' <= c && c <= 'Z')
    } else {
        is_alphabetic(c)
    }
}

/// Decides `is_letter_or_digit`, asking std only beyond ASCII.
fn letter_or_digit_exec(c: char) -> (b: bool)
    ensures
        b == is_letter_or_digit(c),
{
    if c <= '\x7f' {
        ('a' <= c && c <= 'z') || ('A' <= c && c <= 'Z') || ('0' <= c && c <= '9')
    } else {
        is_alphanumeric(c)
    }
}

/// `char::is_alphabetic`; its result is named. Of the Unicode table behind it only the fact
/// that std's documentation shows is stated: an ASCII letter is alphabetic. Which other
/// characters are is left unsaid.
#[verifier::external_body]
fn is_alphabetic(c: char) -> (b: bool)
    ensures
        b == char_is_alphabetic(c),
        is_ascii_letter(c) ==> b,
{
    c.is_alphabetic()
}

/// `char::is_alphanumeric`; its result is named. Of the Unicode tables behind it only the
/// fact that std's documentation shows is stated: an ASCII letter or digit is alphanumeric.
/// Which other characters are is left unsaid.
#[verifier::external_body]
fn is_alphanumeric(c: char) -> (b: bool)
    ensures
        b == char_is_alphanumeric(c),
        is_ascii_letter(c) || ('0' <= c && c <= '9') ==> b,
{
    c.is_alphanumeric()
}

#[derive(Debug)]
pub enum ScanError {
    Generic(String),
    ExpectedEither(String, String),
}

fn generic_error(message: &str) -> (e: ScanError)
    ensures
        e matches ScanError::Generic(m) && m@ == message@,
{
    ScanError::Generic(String::from_str(message))
}

pub open spec fn is_digit(c: char) -> bool {
    '0' <= c && c <= '9'
}

// ----------------------------------------------------------------------------------------
// Leaf scanners, as functions on the characters of the input.
// ----------------------------------------------------------------------------------------

/// A character that may stand in a non-terminal: a letter, a digit, or one of `-/#?_`.
pub open spec fn is_nt_char(c: char) -> bool {
    is_letter(c) || is_digit(c) || c == '-' || c == '/' || c == '#' || c == '?' || c == '_'
}

/// The number of leading characters of `s` that may stand in a non-terminal.
pub open spec fn nt_run(s: Seq<char>) -> nat
    decreases s.len(),
{
    if s.len() > 0 && is_nt_char(s[0]) {
        1 + nt_run(s.drop_first())
    } else {
        0
    }
}

/// A non-terminal: the longest non-empty prefix of non-terminal characters.
pub open spec fn scan_nonterminal(s: Seq<char>) -> Option<(Seq<char>, Seq<char>)> {
    if nt_run(s) == 0 {
        None
    } else {
        Some((s.take(nt_run(s) as int), s.skip(nt_run(s) as int)))
    }
}

proof fn lemma_nt_run(s: Seq<char>)
    ensures
        nt_run(s) <= s.len(),
    decreases s.len(),
{
    if s.len() > 0 && is_nt_char(s[0]) {
        lemma_nt_run(s.drop_first());
    }
}

fn is_nt_char_exec(c: char) -> (b: bool)
    ensures
        b == is_nt_char(c),
{
    letter_exec(c) || ('0' <= c && c <= '9') || c == '-' || c == '/' || c == '#' || c == '?' || c == '_'
}

/// Scan a non-terminal from `c[lo..hi]`; on success, also the position after it.
fn nonterminal_at(c: &Vec<char>, lo: usize, hi: usize) -> (r: Result<(String, usize), ScanError>)
    requires
        lo <= hi <= c@.len(),
    ensures
        r is Ok <==> scan_nonterminal(c@.subrange(lo as int, hi as int)) is Some,
        r matches Ok((name, p)) ==> lo < p <= hi && scan_nonterminal(
            c@.subrange(lo as int, hi as int),
        ) == Some((name@, c@.subrange(p as int, hi as int))),
{
    let ghost s = c@.subrange(lo as int, hi as int);
    if lo == hi {
        return Err(generic_error("Expected NonTerminal, but it's an empty string"));
    }
    if !is_nt_char_exec(c[lo]) {
        let mut m = String::from_str("Expected NonTerminal but got ");
        push_char(&mut m, c[lo]);
        return Err(ScanError::Generic(m));
    }
    let mut name = String::new();
    let mut p = lo;
    while p < hi && is_nt_char_exec(c[p])
        invariant
            lo <= p <= hi <= c@.len(),
            s == c@.subrange(lo as int, hi as int),
            nt_run(s) == (p - lo) + nt_run(c@.subrange(p as int, hi as int)),
            name@ == c@.subrange(lo as int, p as int),
        decreases hi - p,
    {
        assert(c@.subrange(p as int, hi as int).drop_first() =~= c@.subrange(p + 1, hi as int));
        push_char(&mut name, c[p]);
        p = p + 1;
        assert(name@ =~= c@.subrange(lo as int, p as int));
    }
    assert(s.take(nt_run(s) as int) =~= c@.subrange(lo as int, p as int));
    assert(s.skip(nt_run(s) as int) =~= c@.subrange(p as int, hi as int));
    Ok((name, p))
}

/// A character that may continue an instrument name.
pub open spec fn is_instrument_char(c: char) -> bool {
    is_letter_or_digit(c) || c == '_'
}

pub open spec fn instrument_run(s: Seq<char>) -> nat
    decreases s.len(),
{
    if s.len() > 0 && is_instrument_char(s[0]) {
        1 + instrument_run(s.drop_first())
    } else {
        0
    }
}

/// The length of the instrument name at the start of `s` (which starts with a letter).
pub open spec fn instrument_name_len(s: Seq<char>) -> nat {
    1 + instrument_run(s.drop_first())
}

/// What follows a name of `n` characters: the character that ends the name is consumed too.
pub open spec fn after_terminated(s: Seq<char>, n: nat) -> Seq<char> {
    if n < s.len() {
        s.skip(n + 1int)
    } else {
        s.skip(n as int)
    }
}

/// An instrument: a letter, then letters, digits and `_`; the character that ends the name is
/// consumed with it. The name must be that of an instrument.
pub open spec fn scan_instrument(s: Seq<char>) -> Option<(Instrument, Seq<char>)> {
    if s.len() > 0 && is_letter(s[0]) {
        let n = instrument_name_len(s);
        match parse_instrument_spec(s.take(n as int)) {
            Ok(i) => Some((i, after_terminated(s, n))),
            Err(_) => None,
        }
    } else {
        None
    }
}

/// The instrument name at the start of `s`, if any, is a known one.
pub open spec fn instrument_known(s: Seq<char>) -> bool {
    s.len() > 0 && is_letter(s[0]) ==> parse_instrument_spec(
        s.take(instrument_name_len(s) as int),
    ) is Ok
}

proof fn lemma_instrument_run(s: Seq<char>)
    ensures
        instrument_run(s) <= s.len(),
    decreases s.len(),
{
    if s.len() > 0 && is_instrument_char(s[0]) {
        lemma_instrument_run(s.drop_first());
    }
}

fn instrument_at(c: &Vec<char>, lo: usize, hi: usize) -> (r: Result<(Instrument, usize), ScanError>)
    requires
        lo <= hi <= c@.len(),
        instrument_known(c@.subrange(lo as int, hi as int)),
    ensures
        r is Ok <==> scan_instrument(c@.subrange(lo as int, hi as int)) is Some,
        r matches Ok((i, p)) ==> lo < p <= hi && scan_instrument(
            c@.subrange(lo as int, hi as int),
        ) == Some((i, c@.subrange(p as int, hi as int))),
{
    let ghost s = c@.subrange(lo as int, hi as int);
    if lo == hi || !letter_exec(c[lo]) {
        return Err(generic_error("Expected Instrument"));
    }
    let mut p = lo + 1;
    assert(s.drop_first() =~= c@.subrange(lo + 1, hi as int));
    while p < hi && (letter_or_digit_exec(c[p]) || c[p] == '_')
        invariant
            lo < p <= hi <= c@.len(),
            s == c@.subrange(lo as int, hi as int),
            instrument_run(s.drop_first()) == (p - lo - 1) + instrument_run(
                c@.subrange(p as int, hi as int),
            ),
        decreases hi - p,
    {
        assert(c@.subrange(p as int, hi as int).drop_first() =~= c@.subrange(p + 1, hi as int));
        p = p + 1;
    }
    proof {
        assert(s.drop_first() =~= c@.subrange(lo + 1, hi as int));
    }
    let name = copy_chars(c, lo, p);
    assert(name@ == s.take(instrument_name_len(s) as int));
    let instrument = match Instrument::parse_chars(&name) {
        Ok(i) => i,
        Err(_) => {
            return Err(generic_error("Expected Instrument"));
        },
    };
    let end = if p < hi {
        p + 1
    } else {
        p
    };
    assert(after_terminated(s, instrument_name_len(s)) =~= c@.subrange(end as int, hi as int));
    Ok((instrument, end))
}


pub open spec fn digit_run(s: Seq<char>) -> nat
    decreases s.len(),
{
    if s.len() > 0 && is_digit(s[0]) {
        1 + digit_run(s.drop_first())
    } else {
        0
    }
}

/// A volume: decimal digits; the character that ends them is consumed with them.
pub open spec fn scan_volume(s: Seq<char>) -> Option<(Volume, Seq<char>)> {
    if s.len() > 0 && is_digit(s[0]) {
        let n = digit_run(s);
        Some((Volume(digits_value(s.take(n as int)) as u32), after_terminated(s, n)))
    } else {
        None
    }
}

/// The digits at the start of `s`, if any, fit a `u32`.
pub open spec fn volume_fits(s: Seq<char>) -> bool {
    s.len() > 0 && is_digit(s[0]) ==> digits_value(s.take(digit_run(s) as int)) <= u32::MAX
}

proof fn lemma_digit_run(s: Seq<char>)
    ensures
        digit_run(s) <= s.len(),
        all_digits(s.take(digit_run(s) as int)),
    decreases s.len(),
{
    if s.len() > 0 && is_digit(s[0]) {
        lemma_digit_run(s.drop_first());
        let t = s.take(digit_run(s) as int);
        assert forall|k: int| 0 <= k < t.len() implies '0' <= #[trigger] t[k] && t[k] <= '9' by {
            if k > 0 {
                assert(t[k] == s.drop_first().take(digit_run(s.drop_first()) as int)[k - 1]);
            }
        }
    }
}

fn volume_at(c: &Vec<char>, lo: usize, hi: usize) -> (r: Result<(Volume, usize), ScanError>)
    requires
        lo <= hi <= c@.len(),
        volume_fits(c@.subrange(lo as int, hi as int)),
    ensures
        r is Ok <==> scan_volume(c@.subrange(lo as int, hi as int)) is Some,
        r matches Ok((v, p)) ==> lo < p <= hi && scan_volume(c@.subrange(lo as int, hi as int))
            == Some((v, c@.subrange(p as int, hi as int))),
{
    let ghost s = c@.subrange(lo as int, hi as int);
    if lo == hi || !('0' <= c[lo] && c[lo] <= '9') {
        return Err(generic_error("Expected Volume"));
    }
    let mut p = lo;
    while p < hi && '0' <= c[p] && c[p] <= '9'
        invariant
            lo <= p <= hi <= c@.len(),
            s == c@.subrange(lo as int, hi as int),
            digit_run(s) == (p - lo) + digit_run(c@.subrange(p as int, hi as int)),
        decreases hi - p,
    {
        assert(c@.subrange(p as int, hi as int).drop_first() =~= c@.subrange(p + 1, hi as int));
        p = p + 1;
    }
    proof {
        lemma_digit_run(s);
        assert(s.take(digit_run(s) as int) =~= c@.subrange(lo as int, p as int));
    }
    let v = parse_unsigned_in(c, lo, p, 0xffff_ffff);
    let value = match v {
        Some(v) => v as u32,
        None => {
            proof {
                assert(c@.subrange(lo as int, p as int)[0] != '+');
            }
            return Err(generic_error("Expected Volume"));
        },
    };
    proof {
        assert(c@.subrange(lo as int, p as int)[0] != '+');
    }
    let end = if p < hi {
        p + 1
    } else {
        p
    };
    assert(after_terminated(s, digit_run(s)) =~= c@.subrange(end as int, hi as int));
    Ok((Volume(value), end))
}

/// A meta control: `i=` and an instrument, or `v=` and a volume.
pub open spec fn scan_meta(s: Seq<char>) -> Option<(MetaControl, Seq<char>)> {
    if s.len() >= 2 && s[1] == '=' {
        if s[0] == 'i' {
            match scan_instrument(s.skip(2)) {
                Some((i, r)) => Some((MetaControl::ChangeInstrument(i), r)),
                None => None,
            }
        } else if s[0] == 'v' {
            match scan_volume(s.skip(2)) {
                Some((v, r)) => Some((MetaControl::ChangeVolume(v), r)),
                None => None,
            }
        } else {
            None
        }
    } else {
        None
    }
}

/// A meta control names a known instrument and a volume that fits.
pub open spec fn meta_ok(s: Seq<char>) -> bool {
    s.len() >= 2 && s[1] == '=' ==> {
        &&& s[0] == 'i' ==> instrument_known(s.skip(2))
        &&& s[0] == 'v' ==> volume_fits(s.skip(2))
    }
}

fn meta_at(c: &Vec<char>, lo: usize, hi: usize) -> (r: Result<(MetaControl, usize), ScanError>)
    requires
        lo <= hi <= c@.len(),
        meta_ok(c@.subrange(lo as int, hi as int)),
    ensures
        r is Ok <==> scan_meta(c@.subrange(lo as int, hi as int)) is Some,
        r matches Ok((m, p)) ==> lo < p <= hi && scan_meta(c@.subrange(lo as int, hi as int))
            == Some((m, c@.subrange(p as int, hi as int))),
{
    let ghost s = c@.subrange(lo as int, hi as int);
    if lo == hi {
        return Err(generic_error("Expected MetaControl"));
    }
    let first = c[lo];
    if hi - lo < 2 || c[lo + 1] != '=' {
        let mut m = String::from_str("Expected '=' to follow meta control character ");
        push_char(&mut m, first);
        return Err(ScanError::Generic(m));
    }
    assert(s.skip(2) =~= c@.subrange(lo + 2, hi as int));
    if first == 'i' {
        match instrument_at(c, lo + 2, hi) {
            Ok((i, p)) => Ok((MetaControl::ChangeInstrument(i), p)),
            Err(e) => Err(e),
        }
    } else if first == 'v' {
        match volume_at(c, lo + 2, hi) {
            Ok((v, p)) => Ok((MetaControl::ChangeVolume(v), p)),
            Err(e) => Err(e),
        }
    } else {
        let mut m = String::from_str("Expected MetaControl: i= or v=, found ");
        push_char(&mut m, first);
        push_char(&mut m, '=');
        Err(ScanError::Generic(m))
    }
}

/// The pitch class of a lower-case note letter.
pub open spec fn letter_class(c: char) -> PitchClass {
    if c == 'a' {
        PitchClass::A
    } else if c == 'b' {
        PitchClass::B
    } else if c == 'c' {
        PitchClass::C
    } else if c == 'd' {
        PitchClass::D
    } else if c == 'e' {
        PitchClass::E
    } else if c == 'f' {
        PitchClass::F
    } else {
        PitchClass::G
    }
}

/// A note: `_` for a rest, or an optional octave digit (4 when absent), a letter `a`-`g` in
/// either case, and an optional `#` (sharp) or `b` (flat).
pub open spec fn scan_note(s: Seq<char>) -> Option<(TerminalNote, Seq<char>)> {
    if s.len() == 0 {
        None
    } else if s[0] == '_' {
        Some((TerminalNote::Rest, s.skip(1)))
    } else {
        let octave: int = if is_digit(s[0]) {
            s[0] as int - '0' as int
        } else {
            4
        };
        let li: int = if is_digit(s[0]) {
            1
        } else {
            0
        };
        if li < s.len() && 'a' <= lower_spec(s[li]) && lower_spec(s[li]) <= 'g' {
            let base = letter_class(lower_spec(s[li]));
            let sharp = li + 1 < s.len() && s[li + 1] == '#';
            let flat = li + 1 < s.len() && s[li + 1] == 'b';
            let n = if sharp {
                (pitch_class_num(base) + 1) % 12
            } else if flat {
                (pitch_class_num(base) + 11) % 12
            } else {
                pitch_class_num(base)
            };
            let used = if sharp || flat {
                li + 2
            } else {
                li + 1
            };
            Some((TerminalNote::Note { pitch: Pitch::spec_new(octave, n) }, s.skip(used)))
        } else {
            None
        }
    }
}

fn letter_class_exec(c: char) -> (pc: PitchClass)
    ensures
        pc == letter_class(c),
{
    if c == 'a' {
        PitchClass::A
    } else if c == 'b' {
        PitchClass::B
    } else if c == 'c' {
        PitchClass::C
    } else if c == 'd' {
        PitchClass::D
    } else if c == 'e' {
        PitchClass::E
    } else if c == 'f' {
        PitchClass::F
    } else {
        PitchClass::G
    }
}

fn note_at(c: &Vec<char>, lo: usize, hi: usize) -> (r: Result<(TerminalNote, usize), ScanError>)
    requires
        lo <= hi <= c@.len(),
    ensures
        r is Ok <==> scan_note(c@.subrange(lo as int, hi as int)) is Some,
        r matches Ok((n, p)) ==> lo < p <= hi && scan_note(c@.subrange(lo as int, hi as int))
            == Some((n, c@.subrange(p as int, hi as int))),
{
    let ghost s = c@.subrange(lo as int, hi as int);
    if lo == hi {
        return Err(generic_error("Expected Note: octave number or note letter"));
    }
    let first = c[lo];
    if first == '_' {
        assert(s.skip(1) =~= c@.subrange(lo + 1, hi as int));
        return Ok((TerminalNote::Rest, lo + 1));
    }
    let mut octave: i8 = 4;
    let mut li = lo;
    if '0' <= first && first <= '9' {
        octave = (first as u32 - '0' as u32) as i8;
        li = lo + 1;
    }
    if li >= hi {
        let mut m = String::from_str("Expected letter [a-g] after octave number after ");
        push_char(&mut m, first);
        return Err(ScanError::Generic(m));
    }
    let next = to_ascii_lower(c[li]);
    if !('a' <= next && next <= 'g') {
        let mut m = String::from_str("Expected Note: note name ");
        push_char(&mut m, c[li]);
        m.append(" is not a valid note.");
        return Err(ScanError::Generic(m));
    }
    let base = letter_class_exec(next);
    let mut pitch_class = base;
    let mut used = li + 1;
    if li + 1 < hi {
        if c[li + 1] == '#' {
            pitch_class = base.sharp();
            used = li + 2;
        } else if c[li + 1] == 'b' {
            pitch_class = base.flat();
            used = li + 2;
        }
    }
    let pitch = Pitch::new(octave, pitch_class);
    assert(s.skip(used - lo) =~= c@.subrange(used as int, hi as int));
    Ok((TerminalNote::Note { pitch }, used))
}

/// The position of the character that closes the bracket opened before `s` began, with
/// `depth` brackets open at position `i`.
pub open spec fn matching_from(s: Seq<char>, open: char, close: char, depth: int, i: int) -> Option<
    int,
>
    decreases s.len() - i,
{
    if i < 0 || i >= s.len() {
        None
    } else if s[i] == open {
        matching_from(s, open, close, depth + 1, i + 1)
    } else if s[i] == close {
        if depth - 1 == 0 {
            Some(i)
        } else {
            matching_from(s, open, close, depth - 1, i + 1)
        }
    } else {
        matching_from(s, open, close, depth, i + 1)
    }
}

/// The position of the character that closes the one bracket open before `s` began.
pub open spec fn find_matching_spec(s: Seq<char>, open: char, close: char) -> Option<int> {
    matching_from(s, open, close, 1, 0)
}

proof fn lemma_matching_bound(s: Seq<char>, open: char, close: char, depth: int, i: int)
    ensures
        matching_from(s, open, close, depth, i) matches Some(k) ==> 0 <= i <= k < s.len(),
    decreases s.len() - i,
{
    if 0 <= i < s.len() {
        lemma_matching_bound(s, open, close, depth + 1, i + 1);
        lemma_matching_bound(s, open, close, depth - 1, i + 1);
        lemma_matching_bound(s, open, close, depth, i + 1);
    }
}

/// Find the closing bracket in `c[lo..hi]`, one bracket being open already; its position.
fn find_matching(c: &Vec<char>, lo: usize, hi: usize, open: char, close: char) -> (r: Option<usize>)
    requires
        lo <= hi <= c@.len(),
    ensures
        r matches Some(k) ==> lo <= k < hi && find_matching_spec(
            c@.subrange(lo as int, hi as int),
            open,
            close,
        ) == Some(k - lo),
        r is None ==> find_matching_spec(c@.subrange(lo as int, hi as int), open, close) is None,
{
    let ghost s = c@.subrange(lo as int, hi as int);
    let mut stack: u128 = 1;
    let mut i = lo;
    while i < hi
        invariant
            lo <= i <= hi <= c@.len(),
            s == c@.subrange(lo as int, hi as int),
            1 <= stack <= 1 + (i - lo),
            find_matching_spec(s, open, close) == matching_from(s, open, close, stack as int, i - lo),
        decreases hi - i,
    {
        let ch = c[i];
        assert(s[i - lo] == ch);
        if ch == open {
            stack = stack + 1;
        } else if ch == close {
            if stack == 1 {
                return Some(i);
            }
            stack = stack - 1;
        }
        i = i + 1;
    }
    None
}

/// `k` is the first position of `x` in `s`.
pub open spec fn is_first_index(s: Seq<char>, x: char, k: int) -> bool {
    0 <= k < s.len() && s[k] == x && forall|j: int| 0 <= j < k ==> s[j] != x
}

/// The first position of `x` in `s`.
pub open spec fn index_of(s: Seq<char>, x: char) -> Option<int> {
    if s.contains(x) {
        Some(choose|k: int| is_first_index(s, x, k))
    } else {
        None
    }
}

/// The part of `s` before the first `x` (all of `s` when there is none).
pub open spec fn before_first(s: Seq<char>, x: char) -> Seq<char> {
    match index_of(s, x) {
        Some(k) => s.take(k),
        None => s,
    }
}

/// The second part of `s` when it is split at `x`: between the first and the second `x`.
pub open spec fn second_part(s: Seq<char>, x: char) -> Option<Seq<char>> {
    match index_of(s, x) {
        Some(k) => Some(before_first(s.skip(k + 1), x)),
        None => None,
    }
}

/// The first position of `x` in `c[lo..hi]`, or `hi`.
fn first_index(c: &Vec<char>, lo: usize, hi: usize, x: char) -> (k: usize)
    requires
        lo <= hi <= c@.len(),
    ensures
        lo <= k <= hi,
        k < hi ==> c@[k as int] == x,
        k < hi ==> index_of(c@.subrange(lo as int, hi as int), x) == Some(k - lo),
        k == hi ==> index_of(c@.subrange(lo as int, hi as int), x) is None,
        before_first(c@.subrange(lo as int, hi as int), x) == c@.subrange(lo as int, k as int),
{
    let ghost s = c@.subrange(lo as int, hi as int);
    let mut k = lo;
    while k < hi && c[k] != x
        invariant
            lo <= k <= hi <= c@.len(),
            s == c@.subrange(lo as int, hi as int),
            forall|j: int| 0 <= j < k - lo ==> s[j] != x,
        decreases hi - k,
    {
        k = k + 1;
    }
    if k < hi {
        assert(s[k - lo] == x);
        assert(s.contains(x));
        proof {
            assert(is_first_index(s, x, k - lo));
            let f = choose|f: int| is_first_index(s, x, f);
            assert(is_first_index(s, x, f));
            if f < k - lo {
                assert(s[f] != x);
            } else if f > k - lo {
                assert(s[k - lo] != x);
            }
            assert(f == k - lo);
        }
        assert(s.take(k - lo) =~= c@.subrange(lo as int, k as int));
    } else {
        assert(!s.contains(x));
        assert(s =~= c@.subrange(lo as int, k as int));
    }
    k
}


/// The note value of a quarter note, used where none is written.
pub open spec fn quarter() -> NoteValue {
    NoteValue(Ratio::lowest(1, 4))
}

/// A note value: `<n>` or `<n/m>`; a quarter note when none is written. Unreadable fractions
/// give a quarter note, unreadable whole numbers 0.
pub open spec fn scan_note_value(s: Seq<char>) -> Option<(NoteValue, Seq<char>)> {
    if s.len() > 0 && s[0] == '<' {
        match find_matching_spec(s.drop_first(), '<', '>') {
            Some(e) => {
                let d = s.subrange(1, e + 1);
                let rest = s.skip(e + 2);
                if d.contains('/') {
                    match (
                        parse_unsigned(before_first(d, '/'), u32::MAX as int),
                        parse_unsigned(second_part(d, '/')->0, u32::MAX as int),
                    ) {
                        (Some(n), Some(m)) => Some((NoteValue(Ratio::lowest(n, m)), rest)),
                        _ => Some((quarter(), rest)),
                    }
                } else {
                    let n = match parse_unsigned(d, u32::MAX as int) {
                        Some(n) => n,
                        None => 0,
                    };
                    Some((NoteValue(Ratio::lowest(n, 1)), rest))
                }
            },
            None => None,
        }
    } else {
        Some((quarter(), s))
    }
}

/// A written fraction of a note value does not have 0 below the line.
pub open spec fn note_value_ok(s: Seq<char>) -> bool {
    s.len() > 0 && s[0] == '<' ==> (find_matching_spec(s.drop_first(), '<', '>') matches Some(e)
        ==> ({
        let d = s.subrange(1, e + 1);
        d.contains('/') ==> (parse_unsigned(second_part(d, '/')->0, u32::MAX as int) matches Some(
            m,
        ) ==> m != 0)
    }))
}

fn note_value_at(c: &Vec<char>, lo: usize, hi: usize) -> (r: Result<(NoteValue, usize), ScanError>)
    requires
        lo <= hi <= c@.len(),
        note_value_ok(c@.subrange(lo as int, hi as int)),
    ensures
        r is Ok <==> scan_note_value(c@.subrange(lo as int, hi as int)) is Some,
        r matches Ok((v, p)) ==> lo <= p <= hi && scan_note_value(
            c@.subrange(lo as int, hi as int),
        ) == Some((v, c@.subrange(p as int, hi as int))),
{
    let ghost s = c@.subrange(lo as int, hi as int);
    let default = NoteValue::new(1, 4);
    if lo < hi && c[lo] == '<' {
        assert(s.drop_first() =~= c@.subrange(lo + 1, hi as int));
        match find_matching(c, lo + 1, hi, '<', '>') {
            Some(end) => {
                // the note value is c[lo + 1 .. end], and '>' stands at `end`
                let ghost d = s.subrange(1, end - lo);
                assert(d =~= c@.subrange(lo + 1, end as int));
                assert(s.skip(end - lo + 1) =~= c@.subrange(end + 1, hi as int));
                let slash = first_index(c, lo + 1, end, '/');
                if slash < end {
                    assert(d.contains('/')) by {
                        assert(d[slash - lo - 1] == '/');
                    }
                    let first = parse_unsigned_in(c, lo + 1, slash, 0xffff_ffff);
                    let second_end = first_index(c, slash + 1, end, '/');
                    proof {
                        assert(d.skip(slash - lo) =~= c@.subrange(slash + 1, end as int));
                    }
                    let second = parse_unsigned_in(c, slash + 1, second_end, 0xffff_ffff);
                    match (first, second) {
                        (Some(n), Some(m)) => {
                            Ok((NoteValue::new(n as u32, m as u32), end + 1))
                        },
                        _ => Ok((default, end + 1)),
                    }
                } else {
                    let n = match parse_unsigned_in(c, lo + 1, end, 0xffff_ffff) {
                        Some(n) => n as u32,
                        None => 0,
                    };
                    Ok((NoteValue::new(n, 1), end + 1))
                }
            },
            None => Err(generic_error("Expected '>'")),
        }
    } else {
        assert(s =~= c@.subrange(lo as int, hi as int));
        Ok((default, lo))
    }
}

/// A fraction `n/m` or a whole number `n` (signed); what follows a second `/` is ignored, and
/// an unreadable denominator counts as none.
pub open spec fn scan_fraction(s: Seq<char>) -> Option<SignedRatio> {
    let first = parse_signed(before_first(s, '/'), isize::MIN as int, isize::MAX as int);
    let second = match second_part(s, '/') {
        Some(p) => parse_signed(p, isize::MIN as int, isize::MAX as int),
        None => None,
    };
    match first {
        Some(n) => match second {
            Some(m) => if m == 0 {
                None
            } else {
                Some(SignedRatio::lowest(n, m))
            },
            None => Some(SignedRatio::lowest(n, 1)),
        },
        None => None,
    }
}

/// Neither number of a fraction is the least `isize`.
pub open spec fn fraction_ok(s: Seq<char>) -> bool {
    &&& parse_signed(before_first(s, '/'), isize::MIN as int, isize::MAX as int) != Some(
        isize::MIN as int,
    )
    &&& (second_part(s, '/') matches Some(p) ==> parse_signed(
        p,
        isize::MIN as int,
        isize::MAX as int,
    ) != Some(isize::MIN as int))
}

fn fraction_at(c: &Vec<char>, lo: usize, hi: usize) -> (r: Result<SignedRatio, ScanError>)
    requires
        lo <= hi <= c@.len(),
        fraction_ok(c@.subrange(lo as int, hi as int)),
    ensures
        r is Ok <==> scan_fraction(c@.subrange(lo as int, hi as int)) is Some,
        r matches Ok(f) ==> scan_fraction(c@.subrange(lo as int, hi as int)) == Some(f),
{
    let ghost s = c@.subrange(lo as int, hi as int);
    let min_mag: u64 = (isize::MAX as u64) + 1;
    assert(-(min_mag as int) == isize::MIN as int);
    let slash = first_index(c, lo, hi, '/');
    let first = parse_signed_in(c, lo, slash, min_mag, isize::MAX as u64);
    let second = if slash < hi {
        let second_end = first_index(c, slash + 1, hi, '/');
        assert(s.skip(slash - lo + 1) =~= c@.subrange(slash + 1, hi as int));
        parse_signed_in(c, slash + 1, second_end, min_mag, isize::MAX as u64)
    } else {
        None
    };
    match first {
        Some(n) => match second {
            Some(m) => {
                if m == 0 {
                    Err(generic_error("Denominator cannot be zero"))
                } else {
                    Ok(SignedRatio::new(n as isize, m as isize))
                }
            },
            None => Ok(SignedRatio::new(n as isize, 1)),
        },
        None => Err(generic_error("Expected fraction in the form of num/denom")),
    }
}

/// A music transform: `x` and a count, `T` and a number of semitones, or `>>` and a fraction
/// by which to speed up (the factor kept is its reciprocal).
pub open spec fn scan_transform(s: Seq<char>) -> Option<MusicTransform> {
    if s.len() == 0 {
        None
    } else if s[0] == 'x' {
        match parse_unsigned(s.drop_first(), usize::MAX as int) {
            Some(n) => Some(MusicTransform::Repeat { num: n as usize }),
            None => None,
        }
    } else if s[0] == 'T' {
        match parse_signed(s.drop_first(), -128, 127) {
            Some(n) => Some(MusicTransform::Transpose { semitones: n as i8 }),
            None => None,
        }
    } else if s[0] == '>' && s.len() >= 2 && s[1] == '>' {
        match scan_fraction(s.skip(2)) {
            Some(f) => Some(MusicTransform::Compression { factor: TimeCompression(f.recip_spec()) }),
            None => None,
        }
    } else {
        None
    }
}

/// A fraction that is read is a valid ratio: a positive denominator and a numerator above the
/// least `isize`.
proof fn lemma_fraction_valid(s: Seq<char>)
    requires
        fraction_ok(s),
    ensures
        scan_fraction(s) matches Some(f) ==> f.d() > 0 && f.n() > isize::MIN,
{
    let min = isize::MIN as int;
    let max = isize::MAX as int;
    lemma_parse_signed_range(before_first(s, '/'), min, max);
    if let Some(p) = second_part(s, '/') {
        lemma_parse_signed_range(p, min, max);
    }
    let second = match second_part(s, '/') {
        Some(p) => parse_signed(p, min, max),
        None => None,
    };
    if let Some(n) = parse_signed(before_first(s, '/'), min, max) {
        match second {
            Some(m) => {
                if m != 0 {
                    SignedRatio::lemma_lowest(n, m);
                }
            },
            None => SignedRatio::lemma_lowest(n, 1),
        }
    }
}

/// `>>f` speeds a passage up by `f`: the compression it reads is the reciprocal of `f`, so the
/// factor times `f` is 1 and the passage lasts `1/f` of its length.
pub proof fn lemma_speed_up_reciprocal(t: Seq<char>)
    requires
        transform_ok(seq!['>', '>'] + t),
        scan_fraction(t) is Some,
    ensures
        scan_transform(seq!['>', '>'] + t) matches Some(MusicTransform::Compression { factor }) && ({
            let f = scan_fraction(t)->0;
            &&& f.n() != 0
            &&& factor.0.d() > 0
            &&& factor.0.n() * f.n() == factor.0.d() * f.d()
        }),
{
    let s = seq!['>', '>'] + t;
    assert(s.skip(2) =~= t);
    lemma_fraction_valid(t);
    scan_fraction(t)->0.lemma_recip();
}

/// A speed-up fraction is readable without overflow and is not 0.
pub open spec fn transform_ok(s: Seq<char>) -> bool {
    s.len() >= 2 && s[0] == '>' && s[1] == '>' ==> {
        &&& fraction_ok(s.skip(2))
        &&& (scan_fraction(s.skip(2)) matches Some(f) ==> f.n() != 0)
    }
}

fn transform_at(c: &Vec<char>, lo: usize, hi: usize) -> (r: Result<MusicTransform, ScanError>)
    requires
        lo <= hi <= c@.len(),
        transform_ok(c@.subrange(lo as int, hi as int)),
    ensures
        r is Ok <==> scan_transform(c@.subrange(lo as int, hi as int)) is Some,
        r matches Ok(t) ==> scan_transform(c@.subrange(lo as int, hi as int)) == Some(t),
{
    let ghost s = c@.subrange(lo as int, hi as int);
    if lo == hi {
        return Err(generic_error("Expected MusicTransform"));
    }
    let first = c[lo];
    assert(s.drop_first() =~= c@.subrange(lo + 1, hi as int));
    if first == 'x' {
        match parse_unsigned_in(c, lo + 1, hi, usize::MAX as u64) {
            Some(n) => Ok(MusicTransform::Repeat { num: n as usize }),
            None => Err(generic_error("Expected positive integer after 'x'")),
        }
    } else if first == 'T' {
        match parse_signed_in(c, lo + 1, hi, 128, 127) {
            Some(n) => Ok(MusicTransform::Transpose { semitones: n as i8 }),
            None => Err(generic_error("Expected integer after 'T'")),
        }
    } else if first == '>' && hi - lo >= 2 && c[lo + 1] == '>' {
        assert(s.skip(2) =~= c@.subrange(lo + 2, hi as int));
        match fraction_at(c, lo + 2, hi) {
            Ok(f) => {
                proof {
                    use_type_invariant(&f);
                }
                // the user expects the inverse: `>>2` plays twice as fast, in half the time
                Ok(MusicTransform::Compression { factor: TimeCompression(f.recip()) })
            },
            Err(_) => Err(generic_error("Expected fraction after '>>'")),
        }
    } else {
        let mut m = String::from_str("Expected MusicTransform but found ");
        push_char(&mut m, first);
        Err(ScanError::Generic(m))
    }
}

/// A terminal: `:` and a meta control, or a note and its note value.
pub open spec fn scan_terminal(s: Seq<char>, ts: TimeSignature) -> Option<(Terminal, Seq<char>)> {
    if s.len() > 0 && s[0] == ':' {
        match scan_meta(s.skip(1)) {
            Some((m, r)) => Some((Terminal::Meta(m), r)),
            None => None,
        }
    } else {
        match scan_note(s) {
            Some((note, r1)) => match scan_note_value(r1) {
                Some((v, r2)) => Some(
                    (
                        Terminal::AbsoluteSound {
                            duration: Duration { value: v, time_signature: ts },
                            note,
                        },
                        r2,
                    ),
                ),
                None => None,
            },
            None => None,
        }
    }
}

pub open spec fn terminal_ok(s: Seq<char>) -> bool {
    if s.len() > 0 && s[0] == ':' {
        meta_ok(s.skip(1))
    } else {
        scan_note(s) matches Some((_, r1)) ==> note_value_ok(r1)
    }
}

fn terminal_at(c: &Vec<char>, lo: usize, hi: usize, ts: TimeSignature) -> (r: Result<
    (Terminal, usize),
    ScanError,
>)
    requires
        lo <= hi <= c@.len(),
        terminal_ok(c@.subrange(lo as int, hi as int)),
    ensures
        r is Ok <==> scan_terminal(c@.subrange(lo as int, hi as int), ts) is Some,
        r matches Ok((t, p)) ==> lo < p <= hi && scan_terminal(
            c@.subrange(lo as int, hi as int),
            ts,
        ) == Some((t, c@.subrange(p as int, hi as int))),
{
    let ghost s = c@.subrange(lo as int, hi as int);
    if lo < hi && c[lo] == ':' {
        assert(s.skip(1) =~= c@.subrange(lo + 1, hi as int));
        match meta_at(c, lo + 1, hi) {
            Ok((m, p)) => Ok((Terminal::Meta(m), p)),
            Err(e) => Err(e),
        }
    } else {
        match note_at(c, lo, hi) {
            Ok((note, p1)) => match note_value_at(c, p1, hi) {
                Ok((v, p2)) => Ok(
                    (
                        Terminal::AbsoluteSound {
                            duration: Duration { value: v, time_signature: ts },
                            note,
                        },
                        p2,
                    ),
                ),
                Err(e) => Err(e),
            },
            Err(e) => Err(e),
        }
    }
}

/// A symbol: `:` and a terminal, `+` or `-` (move the pitch a semitone), `.` and a note value
/// (sound the current pitch), `*` and a note value (rest), or a non-terminal.
pub open spec fn scan_symbol(s: Seq<char>, ts: TimeSignature) -> Option<(SymbolV, Seq<char>)> {
    if s.len() > 0 && s[0] == ':' {
        match scan_terminal(s.skip(1), ts) {
            Some((t, r)) => Some((SymbolV::T(t), r)),
            None => None,
        }
    } else if s.len() > 0 && s[0] == '+' {
        Some((SymbolV::T(Terminal::MovePitch { semitones: 1 }), s.skip(1)))
    } else if s.len() > 0 && s[0] == '-' {
        Some((SymbolV::T(Terminal::MovePitch { semitones: -1i8 }), s.skip(1)))
    } else if s.len() > 0 && s[0] == '.' {
        match scan_note_value(s.skip(1)) {
            Some((v, r)) => Some(
                (
                    SymbolV::T(
                        Terminal::CurrentSound { duration: Duration { value: v, time_signature: ts } },
                    ),
                    r,
                ),
            ),
            None => None,
        }
    } else if s.len() > 0 && s[0] == '*' {
        match scan_note_value(s.skip(1)) {
            Some((v, r)) => Some(
                (
                    SymbolV::T(
                        Terminal::AbsoluteSound {
                            duration: Duration { value: v, time_signature: ts },
                            note: TerminalNote::Rest,
                        },
                    ),
                    r,
                ),
            ),
            None => None,
        }
    } else {
        match scan_nonterminal(s) {
            Some((name, r)) => Some((SymbolV::NT(name), r)),
            None => None,
        }
    }
}

pub open spec fn symbol_ok(s: Seq<char>) -> bool {
    if s.len() > 0 && s[0] == ':' {
        terminal_ok(s.skip(1))
    } else if s.len() > 0 && (s[0] == '.' || s[0] == '*') {
        note_value_ok(s.skip(1))
    } else {
        true
    }
}

fn symbol_at(c: &Vec<char>, lo: usize, hi: usize, ts: TimeSignature) -> (r: Result<
    (Symbol, usize),
    ScanError,
>)
    requires
        lo <= hi <= c@.len(),
        symbol_ok(c@.subrange(lo as int, hi as int)),
    ensures
        r is Ok <==> scan_symbol(c@.subrange(lo as int, hi as int), ts) is Some,
        r matches Ok((sym, p)) ==> lo < p <= hi && scan_symbol(c@.subrange(lo as int, hi as int), ts)
            == Some((symbol_view(sym), c@.subrange(p as int, hi as int))),
{
    let ghost s = c@.subrange(lo as int, hi as int);
    if lo < hi {
        assert(s.skip(1) =~= c@.subrange(lo + 1, hi as int));
    }
    if lo < hi && c[lo] == ':' {
        match terminal_at(c, lo + 1, hi, ts) {
            Ok((t, p)) => Ok((Symbol::T(t), p)),
            Err(e) => Err(e),
        }
    } else if lo < hi && c[lo] == '+' {
        Ok((Symbol::T(Terminal::MovePitch { semitones: 1 }), lo + 1))
    } else if lo < hi && c[lo] == '-' {
        Ok((Symbol::T(Terminal::MovePitch { semitones: -1 }), lo + 1))
    } else if lo < hi && c[lo] == '.' {
        match note_value_at(c, lo + 1, hi) {
            Ok((v, p)) => Ok(
                (
                    Symbol::T(
                        Terminal::CurrentSound { duration: Duration { value: v, time_signature: ts } },
                    ),
                    p,
                ),
            ),
            Err(e) => Err(e),
        }
    } else if lo < hi && c[lo] == '*' {
        match note_value_at(c, lo + 1, hi) {
            Ok((v, p)) => Ok(
                (
                    Symbol::T(
                        Terminal::AbsoluteSound {
                            duration: Duration { value: v, time_signature: ts },
                            note: TerminalNote::Rest,
                        },
                    ),
                    p,
                ),
            ),
            Err(e) => Err(e),
        }
    } else {
        match nonterminal_at(c, lo, hi) {
            Ok((name, p)) => Ok((Symbol::NT(NonTerminal::Custom(name)), p)),
            Err(e) => Err(e),
        }
    }
}


/// `s` split at every `x`, as `str::split` does: one more part than there are `x`.
pub open spec fn split_spec(s: Seq<char>, x: char) -> Seq<Seq<char>>
    decreases s.len(),
{
    match index_of(s, x) {
        Some(k) => if 0 <= k < s.len() {
            seq![s.take(k)] + split_spec(s.skip(k + 1), x)
        } else {
            seq![s]
        },
        None => seq![s],
    }
}

/// A music string: primitives, each after optional white space, up to the end of `s`.
pub open spec fn scan_ms(s: Seq<char>, ts: TimeSignature) -> Option<Seq<PrimV>>
    decreases s.len(), 2int, 0int,
{
    let k = leading_ws(s);
    if k >= s.len() {
        Some(Seq::empty())
    } else {
        let t = s.skip(k as int);
        match scan_prim(t, ts) {
            Some((p, r)) => if r.len() < t.len() {
                match scan_ms(r, ts) {
                    Some(ps) => Some(seq![p] + ps),
                    None => None,
                }
            } else {
                None
            },
            None => None,
        }
    }
}

/// A music primitive: a split `{a | b | ...}`, a transform `[t][content]`, or a symbol.
pub open spec fn scan_prim(s: Seq<char>, ts: TimeSignature) -> Option<(PrimV, Seq<char>)>
    decreases s.len(), 1int, 0int,
{
    if s.len() > 0 && s[0] == '{' {
        let rest = s.drop_first();
        match find_matching_spec(rest, '{', '}') {
            Some(end) => if 0 <= end < rest.len() {
                match scan_parts(split_spec(rest.take(end), '|'), s.len() as int, ts) {
                    Some(bs) => Some((PrimV::Split(bs), rest.skip(end + 1))),
                    None => None,
                }
            } else {
                None
            },
            None => None,
        }
    } else if s.len() > 0 && s[0] == '[' {
        match index_of(s, ']') {
            Some(j) => if 1 <= j && j + 1 < s.len() && s[j + 1] == '[' {
                let rest = s.skip(j + 2);
                match find_matching_spec(rest, '[', ']') {
                    Some(e) => if 0 <= e < rest.len() {
                        match scan_ms(rest.take(e), ts) {
                            Some(content) => match scan_transform(s.subrange(1, j)) {
                                Some(t) => Some((PrimV::Transform(t, content), rest.skip(e + 1))),
                                None => None,
                            },
                            None => None,
                        }
                    } else {
                        None
                    },
                    None => None,
                }
            } else {
                None
            },
            None => None,
        }
    } else {
        match scan_symbol(s, ts) {
            Some((sym, r)) => Some((PrimV::Simple(sym), r)),
            None => None,
        }
    }
}

/// The music strings of the parts of a split, each shorter than `n`.
pub open spec fn scan_parts(parts: Seq<Seq<char>>, n: int, ts: TimeSignature) -> Option<
    Seq<Seq<PrimV>>,
>
    decreases n, 0int, parts.len(),
{
    if parts.len() == 0 {
        Some(Seq::empty())
    } else if parts.last().len() < n {
        match scan_parts(parts.drop_last(), n, ts) {
            Some(done) => match scan_ms(parts.last(), ts) {
                Some(b) => Some(done.push(b)),
                None => None,
            },
            None => None,
        }
    } else {
        None
    }
}

/// Scanning the music string `s` meets no input on which a part of it panics.
pub open spec fn ms_ok(s: Seq<char>, ts: TimeSignature) -> bool
    decreases s.len(), 2int, 0int,
{
    let k = leading_ws(s);
    if k >= s.len() {
        true
    } else {
        let t = s.skip(k as int);
        &&& prim_ok(t, ts)
        &&& (scan_prim(t, ts) matches Some((p, r)) ==> (r.len() < t.len() ==> ms_ok(r, ts)))
    }
}

pub open spec fn prim_ok(s: Seq<char>, ts: TimeSignature) -> bool
    decreases s.len(), 1int, 0int,
{
    if s.len() > 0 && s[0] == '{' {
        let rest = s.drop_first();
        match find_matching_spec(rest, '{', '}') {
            Some(end) => if 0 <= end < rest.len() {
                parts_ok(split_spec(rest.take(end), '|'), s.len() as int, ts)
            } else {
                true
            },
            None => true,
        }
    } else if s.len() > 0 && s[0] == '[' {
        match index_of(s, ']') {
            Some(j) => if 1 <= j && j + 1 < s.len() && s[j + 1] == '[' {
                let rest = s.skip(j + 2);
                match find_matching_spec(rest, '[', ']') {
                    Some(e) => if 0 <= e < rest.len() {
                        &&& ms_ok(rest.take(e), ts)
                        &&& (scan_ms(rest.take(e), ts) is Some ==> transform_ok(s.subrange(1, j)))
                    } else {
                        true
                    },
                    None => true,
                }
            } else {
                true
            },
            None => true,
        }
    } else {
        symbol_ok(s)
    }
}

pub open spec fn parts_ok(parts: Seq<Seq<char>>, n: int, ts: TimeSignature) -> bool
    decreases n, 0int, parts.len(),
{
    if parts.len() == 0 {
        true
    } else if parts.last().len() < n {
        &&& parts_ok(parts.drop_last(), n, ts)
        &&& (scan_parts(parts.drop_last(), n, ts) is Some ==> ms_ok(parts.last(), ts))
    } else {
        true
    }
}

/// The ranges of the parts of `c[lo..hi]` split at every `x`.
fn split_ranges(c: &Vec<char>, lo: usize, hi: usize, x: char) -> (r: Vec<(usize, usize)>)
    requires
        lo <= hi <= c@.len(),
    ensures
        r@.len() == split_spec(c@.subrange(lo as int, hi as int), x).len(),
        forall|i: int|
            0 <= i < r@.len() ==> lo <= (#[trigger] r@[i]).0 <= r@[i].1 <= hi && c@.subrange(
                r@[i].0 as int,
                r@[i].1 as int,
            ) == split_spec(c@.subrange(lo as int, hi as int), x)[i],
{
    let ghost whole = split_spec(c@.subrange(lo as int, hi as int), x);
    let mut r: Vec<(usize, usize)> = Vec::new();
    let mut a = lo;
    loop
        invariant
            lo <= a <= hi <= c@.len(),
            whole == split_spec(c@.subrange(lo as int, hi as int), x),
            whole == Seq::new(r@.len(), |i: int| c@.subrange(r@[i].0 as int, r@[i].1 as int))
                + split_spec(c@.subrange(a as int, hi as int), x),
            forall|i: int| 0 <= i < r@.len() ==> lo <= (#[trigger] r@[i]).0 <= r@[i].1 <= hi,
        decreases hi - a,
    {
        let ghost done = Seq::new(r@.len(), |i: int| c@.subrange(r@[i].0 as int, r@[i].1 as int));
        let k = first_index(c, a, hi, x);
        let ghost rest = c@.subrange(a as int, hi as int);
        r.push((a, k));
        let ghost done2 = Seq::new(r@.len(), |i: int| c@.subrange(r@[i].0 as int, r@[i].1 as int));
        assert(done2 =~= done.push(c@.subrange(a as int, k as int)));
        if k == hi {
            assert(split_spec(rest, x) == seq![rest]);
            assert(rest =~= c@.subrange(a as int, k as int));
            assert(whole =~= done2);
            assert forall|i: int| 0 <= i < r@.len() implies lo <= (#[trigger] r@[i]).0 <= r@[i].1
                <= hi && c@.subrange(r@[i].0 as int, r@[i].1 as int) == whole[i] by {
                assert(done2[i] == c@.subrange(r@[i].0 as int, r@[i].1 as int));
            }
            return r;
        }
        assert(rest.take(k - a) =~= c@.subrange(a as int, k as int));
        assert(rest.skip(k - a + 1) =~= c@.subrange(k + 1, hi as int));
        assert(split_spec(rest, x) == seq![rest.take(k - a)] + split_spec(rest.skip(k - a + 1), x));
        assert(whole =~= done2 + split_spec(c@.subrange(k + 1, hi as int), x));
        a = k + 1;
    }
}


/// The views of a sequence of primitives.
pub open spec fn prims_view(ps: Seq<MusicPrimitive>) -> Seq<PrimV> {
    Seq::new(ps.len(), |i: int| prim_view(ps[i]))
}

/// The views of a sequence of music strings.
pub open spec fn strings_view(ms: Seq<MusicString>) -> Seq<Seq<PrimV>> {
    Seq::new(ms.len(), |i: int| ms_view(ms[i]))
}

proof fn lemma_ms_view(ms: MusicString)
    ensures
        ms_view(ms) == prims_view(ms.0@),
{
    assert(ms_view(ms) =~= prims_view(ms.0@));
}

proof fn lemma_split_view(branches: Vec<MusicString>)
    ensures
        prim_view(MusicPrimitive::Split { branches }) == PrimV::Split(strings_view(branches@)),
{
    let v = prim_view(MusicPrimitive::Split { branches });
    assert(v->Split_0 =~= strings_view(branches@));
}

/// Scan a music string from all of `c[lo..hi]`.
fn ms_at(c: &Vec<char>, lo: usize, hi: usize, ts: TimeSignature) -> (r: Result<
    MusicString,
    ScanError,
>)
    requires
        lo <= hi <= c@.len(),
        ms_ok(c@.subrange(lo as int, hi as int), ts),
    ensures
        r is Ok <==> scan_ms(c@.subrange(lo as int, hi as int), ts) is Some,
        r matches Ok(ms) ==> scan_ms(c@.subrange(lo as int, hi as int), ts) == Some(ms_view(ms)),
    decreases hi - lo, 2int,
{
    let mut prims: Vec<MusicPrimitive> = Vec::new();
    let mut pos = lo;
    loop
        invariant
            lo <= pos <= hi <= c@.len(),
            ms_ok(c@.subrange(pos as int, hi as int), ts),
            scan_ms(c@.subrange(lo as int, hi as int), ts) == match scan_ms(
                c@.subrange(pos as int, hi as int),
                ts,
            ) {
                Some(ps) => Some(prims_view(prims@) + ps),
                None => None::<Seq<PrimV>>,
            },
        decreases hi - pos,
    {
        let ghost sp = c@.subrange(pos as int, hi as int);
        // skip to the first character that is not white space
        let t = skip_ws(c, pos, hi);
        if t == hi {
            proof {
                lemma_ms_view(MusicString(prims));
                assert(prims_view(prims@) + Seq::<PrimV>::empty() =~= prims_view(prims@));
            }
            return Ok(MusicString(prims));
        }
        assert(sp.skip(t - pos) =~= c@.subrange(t as int, hi as int));
        match prim_at(c, t, hi, ts) {
            Ok((p, np)) => {
                let ghost old_view = prims_view(prims@);
                prims.push(p);
                proof {
                    assert(prims_view(prims@) =~= old_view.push(prim_view(p)));
                    let rest = scan_ms(c@.subrange(np as int, hi as int), ts);
                    if rest is Some {
                        assert(old_view + (seq![prim_view(p)] + rest->Some_0) =~= prims_view(prims@)
                            + rest->Some_0);
                    }
                }
                pos = np;
            },
            Err(e) => {
                return Err(e);
            },
        }
    }
}

/// Scan a music primitive from the start of `c[lo..hi]`.
fn prim_at(c: &Vec<char>, lo: usize, hi: usize, ts: TimeSignature) -> (r: Result<
    (MusicPrimitive, usize),
    ScanError,
>)
    requires
        lo <= hi <= c@.len(),
        prim_ok(c@.subrange(lo as int, hi as int), ts),
    ensures
        r is Ok <==> scan_prim(c@.subrange(lo as int, hi as int), ts) is Some,
        r matches Ok((p, np)) ==> lo < np <= hi && scan_prim(c@.subrange(lo as int, hi as int), ts)
            == Some((prim_view(p), c@.subrange(np as int, hi as int))),
    decreases hi - lo, 1int,
{
    if lo < hi && c[lo] == '{' {
        split_at(c, lo, hi, ts)
    } else if lo < hi && c[lo] == '[' {
        repeat_at(c, lo, hi, ts)
    } else {
        match symbol_at(c, lo, hi, ts) {
            Ok((sym, p)) => Ok((MusicPrimitive::Simple(sym), p)),
            Err(e) => Err(e),
        }
    }
}

/// Scan a split `{a | b | ...}` from the start of `c[lo..hi]`.
fn split_at(c: &Vec<char>, lo: usize, hi: usize, ts: TimeSignature) -> (r: Result<
    (MusicPrimitive, usize),
    ScanError,
>)
    requires
        lo < hi <= c@.len(),
        c@[lo as int] == '{',
        prim_ok(c@.subrange(lo as int, hi as int), ts),
    ensures
        r is Ok <==> scan_prim(c@.subrange(lo as int, hi as int), ts) is Some,
        r matches Ok((p, np)) ==> lo < np <= hi && scan_prim(c@.subrange(lo as int, hi as int), ts)
            == Some((prim_view(p), c@.subrange(np as int, hi as int))),
    decreases hi - lo, 0int,
{
    let ghost s = c@.subrange(lo as int, hi as int);
    let ghost rest = s.drop_first();
    assert(rest =~= c@.subrange(lo + 1, hi as int));
    match find_matching(c, lo + 1, hi, '{', '}') {
        Some(end) => {
            let ghost inner = rest.take(end - lo - 1);
            assert(inner =~= c@.subrange(lo + 1, end as int));
            let ranges = split_ranges(c, lo + 1, end, '|');
            let ghost parts = split_spec(inner, '|');
            assert forall|k: int| 0 <= k < parts.len() implies (#[trigger] parts[k]).len()
                < s.len() by {
                assert(c@.subrange(ranges@[k].0 as int, ranges@[k].1 as int) == parts[k]);
            }
            let mut branches: Vec<MusicString> = Vec::new();
            let mut i: usize = 0;
            while i < ranges.len()
                invariant
                    lo < end < hi <= c@.len(),
                    i <= ranges@.len(),
                    s == c@.subrange(lo as int, hi as int),
                    parts == split_spec(inner, '|'),
                    inner == c@.subrange(lo + 1, end as int),
                    rest == s.drop_first(),
                    s.len() > 0 && s[0] == '{',
                    0 <= end - lo - 1 < rest.len(),
                    find_matching_spec(rest, '{', '}') == Some(end - lo - 1),
                    rest.take(end - lo - 1) == inner,
                    ranges@.len() == parts.len(),
                    forall|k: int|
                        0 <= k < ranges@.len() ==> lo + 1 <= (#[trigger] ranges@[k]).0
                            <= ranges@[k].1 <= end && c@.subrange(
                            ranges@[k].0 as int,
                            ranges@[k].1 as int,
                        ) == parts[k],
                    parts_ok(parts.take(i as int), s.len() as int, ts) ==> parts_ok(
                        parts,
                        s.len() as int,
                        ts,
                    ),
                    parts_ok(parts, s.len() as int, ts),
                    forall|k: int| 0 <= k < parts.len() ==> (#[trigger] parts[k]).len() < s.len(),
                    scan_parts(parts.take(i as int), s.len() as int, ts) == Some(
                        strings_view(branches@),
                    ),
                decreases ranges@.len() - i,
            {
                let (a, b) = ranges[i];
                proof {
                    lemma_parts_ok_prefix(parts, i as int + 1, s.len() as int, ts);
                    let pre = parts.take(i as int + 1);
                    assert(pre.drop_last() =~= parts.take(i as int));
                    assert(pre.last() == parts[i as int]);
                    assert(parts[i as int].len() < s.len());
                }
                match ms_at(c, a, b, ts) {
                    Ok(ms) => {
                        let ghost old = strings_view(branches@);
                        branches.push(ms);
                        assert(strings_view(branches@) =~= old.push(ms_view(ms)));
                    },
                    Err(e) => {
                        proof {
                            let pre = parts.take(i as int + 1);
                            assert(pre.drop_last() =~= parts.take(i as int));
                            assert(pre.last() == parts[i as int]);
                            assert(c@.subrange(a as int, b as int) == parts[i as int]);
                            assert(scan_ms(parts[i as int], ts) is None);
                            assert(scan_parts(pre, s.len() as int, ts) is None);
                            lemma_parts_fail(parts, i as int + 1, s.len() as int, ts);
                            assert(find_matching_spec(rest, '{', '}') == Some(
                                end - lo - 1,
                            ));
                            assert(rest.take(end - lo - 1) == inner);
                            assert(scan_prim(s, ts) is None);
                        }
                        return Err(e);
                    },
                }
                i = i + 1;
            }
            proof {
                assert(parts.take(i as int) =~= parts);
                lemma_split_view(branches);
                assert(rest.skip(end - lo) =~= c@.subrange(end + 1, hi as int));
            }
            Ok((MusicPrimitive::Split { branches }, end + 1))
        },
        None => Err(generic_error("Expected '}'")),
    }
}

/// Scan a transform `[t][content]` from the start of `c[lo..hi]`.
#[verifier::rlimit(50)]
fn repeat_at(c: &Vec<char>, lo: usize, hi: usize, ts: TimeSignature) -> (r: Result<
    (MusicPrimitive, usize),
    ScanError,
>)
    requires
        lo < hi <= c@.len(),
        c@[lo as int] == '[',
        prim_ok(c@.subrange(lo as int, hi as int), ts),
    ensures
        r is Ok <==> scan_prim(c@.subrange(lo as int, hi as int), ts) is Some,
        r matches Ok((p, np)) ==> lo < np <= hi && scan_prim(c@.subrange(lo as int, hi as int), ts)
            == Some((prim_view(p), c@.subrange(np as int, hi as int))),
    decreases hi - lo, 0int,
{
    let ghost s = c@.subrange(lo as int, hi as int);
    let j = first_index(c, lo, hi, ']');
    if j == hi {
        return Err(generic_error("Expected ']'"));
    }
    if !(j + 1 < hi && c[j + 1] == '[') {
        return Err(generic_error("Expected '['"));
    }
    let ghost rest = s.skip(j - lo + 2);
    assert(rest =~= c@.subrange(j + 2, hi as int));
    match find_matching(c, j + 2, hi, '[', ']') {
        Some(e) => {
            assert(rest.take(e - j - 2) =~= c@.subrange(j + 2, e as int));
            assert(s.subrange(1, j - lo) =~= c@.subrange(lo + 1, j as int));
            let content = match ms_at(c, j + 2, e, ts) {
                Ok(ms) => ms,
                Err(err) => {
                    return Err(err);
                },
            };
            let transform = match transform_at(c, lo + 1, j) {
                Ok(t) => t,
                Err(err) => {
                    return Err(err);
                },
            };
            assert(rest.skip(e - j - 1) =~= c@.subrange(e + 1, hi as int));
            Ok((MusicPrimitive::Transform { transform, content }, e + 1))
        },
        None => Err(generic_error("Expected ']'")),
    }
}

proof fn lemma_parts_ok_prefix(parts: Seq<Seq<char>>, i: int, n: int, ts: TimeSignature)
    requires
        0 <= i <= parts.len(),
        parts_ok(parts, n, ts),
        forall|k: int| 0 <= k < parts.len() ==> (#[trigger] parts[k]).len() < n,
    ensures
        parts_ok(parts.take(i), n, ts),
    decreases parts.len() - i,
{
    if i < parts.len() {
        lemma_parts_ok_prefix(parts, i + 1, n, ts);
        let pre = parts.take(i + 1);
        assert(pre.drop_last() =~= parts.take(i));
        assert(pre.last() == parts[i]);
    } else {
        assert(parts.take(i) =~= parts);
    }
}

proof fn lemma_parts_fail(parts: Seq<Seq<char>>, i: int, n: int, ts: TimeSignature)
    requires
        0 < i <= parts.len(),
        scan_parts(parts.take(i), n, ts) is None,
        forall|k: int| 0 <= k < parts.len() ==> (#[trigger] parts[k]).len() < n,
    ensures
        scan_parts(parts, n, ts) is None,
    decreases parts.len() - i,
{
    if i < parts.len() {
        let pre = parts.take(i + 1);
        assert(pre.drop_last() =~= parts.take(i));
        assert(pre.last() == parts[i]);
        lemma_parts_fail(parts, i + 1, n, ts);
    } else {
        assert(parts.take(i) =~= parts);
    }
}


/// A production: a non-terminal, `=` (with white space around it), and a music string.
pub open spec fn scan_production(s: Seq<char>, ts: TimeSignature) -> Option<(Seq<char>, Seq<PrimV>)> {
    match scan_nonterminal(s) {
        Some((name, r1)) => {
            let m = trim_spec(r1);
            if m.len() > 0 && m[0] == '=' {
                match scan_ms(m.drop_first(), ts) {
                    Some(ms) => Some((name, ms)),
                    None => None,
                }
            } else {
                None
            }
        },
        None => None,
    }
}

pub open spec fn production_ok(s: Seq<char>, ts: TimeSignature) -> bool {
    scan_nonterminal(s) matches Some((name, r1)) ==> ({
        let m = trim_spec(r1);
        m.len() > 0 && m[0] == '=' ==> ms_ok(m.drop_first(), ts)
    })
}

fn production_at(c: &Vec<char>, lo: usize, hi: usize, ts: TimeSignature) -> (r: Result<
    Production,
    ScanError,
>)
    requires
        lo <= hi <= c@.len(),
        production_ok(c@.subrange(lo as int, hi as int), ts),
    ensures
        r is Ok <==> scan_production(c@.subrange(lo as int, hi as int), ts) is Some,
        r matches Ok(p) ==> scan_production(c@.subrange(lo as int, hi as int), ts) == Some(
            production_view(p),
        ),
{
    let (name, p) = match nonterminal_at(c, lo, hi) {
        Ok(x) => x,
        Err(e) => {
            return Err(e);
        },
    };
    let a = skip_ws(c, p, hi);
    let b = skip_ws_back(c, a, hi);
    proof {
        let r1 = c@.subrange(p as int, hi as int);
        assert(trim_start_spec(r1) =~= c@.subrange(a as int, hi as int));
        assert(trim_spec(r1) =~= c@.subrange(a as int, b as int));
    }
    if a == b || c[a] != '=' {
        return Err(generic_error("Expected string: ="));
    }
    assert(c@.subrange(a as int, b as int).drop_first() =~= c@.subrange(a + 1, b as int));
    match ms_at(c, a + 1, b, ts) {
        Ok(ms) => Ok(Production(NonTerminal::Custom(name), ms)),
        Err(e) => Err(e),
    }
}

/// A line that counts: not empty, and not a `//` comment.
pub open spec fn keeps_line(l: Seq<char>) -> bool {
    l.len() > 0 && !(l.len() >= 2 && l[0] == '/' && l[1] == '/')
}

/// The lines that count, trimmed, in order.
pub open spec fn kept_lines(lines: Seq<Seq<char>>) -> Seq<Seq<char>>
    decreases lines.len(),
{
    if lines.len() == 0 {
        Seq::empty()
    } else {
        let prev = kept_lines(lines.drop_last());
        let l = trim_spec(lines.last());
        if keeps_line(l) {
            prev.push(l)
        } else {
            prev
        }
    }
}

/// The productions of the lines `lines`, in order; none when one of them fails.
pub open spec fn scan_productions(lines: Seq<Seq<char>>, ts: TimeSignature) -> Option<
    Seq<(Seq<char>, Seq<PrimV>)>,
>
    decreases lines.len(),
{
    if lines.len() == 0 {
        Some(Seq::empty())
    } else {
        match scan_productions(lines.drop_last(), ts) {
            Some(done) => match scan_production(lines.last(), ts) {
                Some(p) => Some(done.push(p)),
                None => None,
            },
            None => None,
        }
    }
}

/// Every production line is scanned safely, up to the first one that fails.
pub open spec fn productions_ok(lines: Seq<Seq<char>>, ts: TimeSignature) -> bool
    decreases lines.len(),
{
    if lines.len() == 0 {
        true
    } else {
        &&& productions_ok(lines.drop_last(), ts)
        &&& (scan_productions(lines.drop_last(), ts) is Some ==> production_ok(lines.last(), ts))
    }
}

/// A grammar seen with its non-terminals as characters.
pub open spec fn grammar_view(g: Grammar) -> (Seq<char>, Seq<(Seq<char>, Seq<PrimV>)>, TimeSignature) {
    (
        crate::cfg::nt_view(g.start),
        Seq::new(g.productions@.len(), |i: int| production_view(g.productions@[i])),
        g.time_signature,
    )
}

/// A grammar: `start ` and a non-terminal on its first line that counts, then one production
/// on each further line that counts. Lines are trimmed; empty lines and `//` comments do not
/// count.
pub open spec fn scan_grammar(s: Seq<char>) -> Option<
    (Seq<char>, Seq<(Seq<char>, Seq<PrimV>)>, TimeSignature),
> {
    let lines = kept_lines(split_spec(s, '\n'));
    if lines.len() == 0 {
        None
    } else if lines[0].len() >= 6 && lines[0].take(6) == "start "@ {
        match scan_nonterminal(lines[0].skip(6)) {
            Some((name, _)) => match scan_productions(lines.skip(1), TimeSignature(4, 4)) {
                Some(ps) => Some((name, ps, TimeSignature(4, 4))),
                None => None,
            },
            None => None,
        }
    } else {
        None
    }
}

pub open spec fn grammar_ok(s: Seq<char>) -> bool {
    let lines = kept_lines(split_spec(s, '\n'));
    lines.len() > 0 && lines[0].len() >= 6 && lines[0].take(6) == "start "@ && scan_nonterminal(
        lines[0].skip(6),
    ) is Some ==> productions_ok(lines.skip(1), TimeSignature(4, 4))
}

fn grammar_of(c: &Vec<char>) -> (r: Result<Grammar, ScanError>)
    requires
        grammar_ok(c@),
    ensures
        r is Ok <==> scan_grammar(c@) is Some,
        r matches Ok(g) ==> scan_grammar(c@) == Some(grammar_view(g)),
{
    let n = c.len();
    let ghost parts = split_spec(c@.subrange(0, n as int), '\n');
    assert(c@.subrange(0, n as int) =~= c@);
    let ranges = split_ranges(c, 0, n, '\n');
    // the trimmed lines that count
    let mut kept: Vec<(usize, usize)> = Vec::new();
    let mut i: usize = 0;
    while i < ranges.len()
        invariant
            n == c@.len(),
            i <= ranges@.len(),
            ranges@.len() == parts.len(),
            parts == split_spec(c@, '\n'),
            forall|k: int|
                0 <= k < ranges@.len() ==> 0 <= (#[trigger] ranges@[k]).0 <= ranges@[k].1 <= n
                    && c@.subrange(ranges@[k].0 as int, ranges@[k].1 as int) == parts[k],
            forall|k: int| 0 <= k < kept@.len() ==> 0 <= (#[trigger] kept@[k]).0 <= kept@[k].1 <= n,
            Seq::new(kept@.len(), |k: int| c@.subrange(kept@[k].0 as int, kept@[k].1 as int))
                == kept_lines(parts.take(i as int)),
        decreases ranges@.len() - i,
    {
        let ghost old = Seq::new(
            kept@.len(),
            |k: int| c@.subrange(kept@[k].0 as int, kept@[k].1 as int),
        );
        let (a0, b0) = ranges[i];
        let a = skip_ws(c, a0, b0);
        let b = skip_ws_back(c, a, b0);
        proof {
            let line = c@.subrange(a0 as int, b0 as int);
            assert(trim_start_spec(line) =~= c@.subrange(a as int, b0 as int));
            assert(trim_spec(line) =~= c@.subrange(a as int, b as int));
            let pre = parts.take(i as int + 1);
            assert(pre.drop_last() =~= parts.take(i as int));
            assert(pre.last() == parts[i as int]);
        }
        let is_comment = b - a >= 2 && c[a] == '/' && c[a + 1] == '/';
        if a < b && !is_comment {
            kept.push((a, b));
            assert(Seq::new(kept@.len(), |k: int| c@.subrange(kept@[k].0 as int, kept@[k].1 as int))
                =~= old.push(c@.subrange(a as int, b as int)));
        }
        i = i + 1;
    }
    assert(parts.take(i as int) =~= parts);
    let ghost lines = kept_lines(parts);
    if kept.len() == 0 {
        return Err(generic_error("Expected at least one line"));
    }
    let (sa, sb) = kept[0];
    proof {
        reveal_strlit("start ");
    }
    assert(lines[0] == c@.subrange(sa as int, sb as int));
    if !(sb - sa >= 6 && chars_prefix(c, sa, sb, "start ")) {
        return Err(generic_error("Expected 'start' at the beginning of the first line"));
    }
    assert(lines[0].skip(6) =~= c@.subrange(sa + 6, sb as int));
    let start = match nonterminal_at(c, sa + 6, sb) {
        Ok((name, _)) => NonTerminal::Custom(name),
        Err(e) => {
            return Err(e);
        },
    };
    let ts = TimeSignature(4, 4);
    let mut productions: Vec<Production> = Vec::new();
    let mut k: usize = 1;
    while k < kept.len()
        invariant
            1 <= k <= kept@.len(),
            lines == kept_lines(parts),
            lines.len() == kept@.len(),
            forall|q: int| 0 <= q < kept@.len() ==> 0 <= (#[trigger] kept@[q]).0 <= kept@[q].1 <= n,
            forall|q: int|
                0 <= q < kept@.len() ==> c@.subrange(kept@[q].0 as int, kept@[q].1 as int)
                    == #[trigger] lines[q],
            n == c@.len(),
            ts == TimeSignature(4, 4),
            parts == split_spec(c@, '\n'),
            lines.len() > 0,
            lines[0].len() >= 6 && lines[0].take(6) == "start "@,
            scan_nonterminal(lines[0].skip(6)) matches Some((name, _)) && name == crate::cfg::nt_view(
                start,
            ),
            productions_ok(lines.skip(1), ts),
            scan_productions(lines.subrange(1, k as int), ts) == Some(
                Seq::new(productions@.len(), |q: int| production_view(productions@[q])),
            ),
        decreases kept@.len() - k,
    {
        let ghost old = Seq::new(productions@.len(), |q: int| production_view(productions@[q]));
        let (a, b) = kept[k];
        proof {
            lemma_productions_ok_prefix(lines.skip(1), k as int, ts);
            let pre = lines.subrange(1, k + 1);
            assert(pre.drop_last() =~= lines.subrange(1, k as int));
            assert(pre.last() == lines[k as int]);
            assert(lines.skip(1).take(k as int) =~= pre);
            assert(c@.subrange(a as int, b as int) == lines[k as int]);
        }
        match production_at(c, a, b, ts) {
            Ok(prod) => {
                productions.push(prod);
                assert(Seq::new(productions@.len(), |q: int| production_view(productions@[q]))
                    =~= old.push(production_view(prod)));
            },
            Err(e) => {
                proof {
                    let pre = lines.subrange(1, k + 1);
                    assert(pre.drop_last() =~= lines.subrange(1, k as int));
                    assert(pre.last() == lines[k as int]);
                    assert(scan_production(lines[k as int], ts) is None);
                    assert(scan_productions(pre, ts) is None);
                    assert(lines.skip(1).take(k as int) =~= pre);
                    lemma_productions_fail(lines.skip(1), k as int, ts);
                    assert(scan_productions(lines.skip(1), ts) is None);
                }
                return Err(e);
            },
        }
        k = k + 1;
    }
    assert(lines.subrange(1, k as int) =~= lines.skip(1));
    let g = Grammar { start, productions, time_signature: ts };
    assert(grammar_view(g).1 =~= Seq::new(
        productions@.len(),
        |q: int| production_view(productions@[q]),
    ));
    Ok(g)
}

proof fn lemma_productions_ok_prefix(lines: Seq<Seq<char>>, i: int, ts: TimeSignature)
    requires
        0 <= i <= lines.len(),
        productions_ok(lines, ts),
    ensures
        productions_ok(lines.take(i), ts),
    decreases lines.len() - i,
{
    if i < lines.len() {
        lemma_productions_ok_prefix(lines, i + 1, ts);
        let pre = lines.take(i + 1);
        assert(pre.drop_last() =~= lines.take(i));
    } else {
        assert(lines.take(i) =~= lines);
    }
}

proof fn lemma_productions_fail(lines: Seq<Seq<char>>, i: int, ts: TimeSignature)
    requires
        0 < i <= lines.len(),
        scan_productions(lines.take(i), ts) is None,
    ensures
        scan_productions(lines, ts) is None,
    decreases lines.len() - i,
{
    if i < lines.len() {
        let pre = lines.take(i + 1);
        assert(pre.drop_last() =~= lines.take(i));
        lemma_productions_fail(lines, i + 1, ts);
    } else {
        assert(lines.take(i) =~= lines);
    }
}

/// Whether `c[lo..hi]` starts with `w`.
fn chars_prefix(c: &Vec<char>, lo: usize, hi: usize, w: &str) -> (r: bool)
    requires
        lo <= hi <= c@.len(),
    ensures
        r == (w@.len() <= hi - lo && c@.subrange(lo as int, hi as int).take(w@.len() as int) == w@),
{
    let r = crate::text::chars_start_with(c, lo, hi, w);
    proof {
        if w@.len() <= hi - lo {
            assert(c@.subrange(lo as int, hi as int).take(w@.len() as int) =~= c@.subrange(
                lo as int,
                lo + w@.len(),
            ));
        }
    }
    r
}

/// The characters `c[lo..hi]`.
fn copy_chars(c: &Vec<char>, lo: usize, hi: usize) -> (r: Vec<char>)
    requires
        lo <= hi <= c@.len(),
    ensures
        r@ == c@.subrange(lo as int, hi as int),
{
    let mut r: Vec<char> = Vec::new();
    let mut k = lo;
    while k < hi
        invariant
            lo <= k <= hi <= c@.len(),
            r@ == c@.subrange(lo as int, k as int),
        decreases hi - k,
    {
        r.push(c[k]);
        k = k + 1;
        assert(r@ =~= c@.subrange(lo as int, k as int));
    }
    r
}

// ----------------------------------------------------------------------------------------
// The scanners.
// ----------------------------------------------------------------------------------------

/// The context of a scan, such as the current time signature.
#[derive(Debug, Clone, Copy)]
pub struct ScanContext {
    pub time_signature: TimeSignature,
}

impl Default for ScanContext {
    fn default() -> (c: Self)
        ensures
            c.time_signature == TimeSignature(4, 4),
    {
        ScanContext { time_signature: TimeSignature::common() }
    }
}

pub type ScanResult<T> = Result<T, ScanError>;

/// Something that reads a prefix of a text and gives what it read and the text that remains.
pub trait Scanner {
    type Output;

    /// Scanning `input` stays clear of the inputs on which the scan would panic.
    spec fn can_scan(&self, input: Seq<char>) -> bool;

    /// What remains of `input` after a successful scan; `None` when the scan fails.
    spec fn scan_rest(&self, input: Seq<char>) -> Option<Seq<char>>;

    /// `out` is what a successful scan of `input` gives.
    spec fn gives(&self, input: Seq<char>, out: Self::Output) -> bool;

    fn scan<'a>(&self, input: &'a str) -> (r: ScanResult<(Self::Output, &'a str)>)
        requires
            self.can_scan(input@),
        ensures
            r is Ok <==> self.scan_rest(input@) is Some,
            r matches Ok((out, rest)) ==> self.scan_rest(input@) == Some(rest@) && self.gives(
                input@,
                out,
            ),
    ;
}

/// The rest of a scan that read the characters `c` up to position `p`.
fn rest_from<'a>(input: &'a str, c: &Vec<char>, p: usize) -> (rest: &'a str)
    requires
        c@ == input@,
        p <= c@.len(),
    ensures
        rest@ == input@.subrange(p as int, input@.len() as int),
{
    input.substring_char(p, c.len())
}

/// The part of `scan` that reads a whole grammar.
pub struct GrammarScanner;

pub struct ProductionScanner(pub ScanContext);

pub struct MusicStringScanner(pub ScanContext);

pub struct MusicPrimitiveScanner(pub ScanContext);

pub struct MusicPrimitiveSplitScanner(pub ScanContext);

pub struct MusicPrimitiveRepeatScanner(pub ScanContext);

pub struct MusicTransformScanner(pub ScanContext);

pub struct SymbolScanner(pub ScanContext);

pub struct NonTerminalScanner;

pub struct TerminalScanner(pub ScanContext);

pub struct NoteScanner;

pub struct NoteValueScanner(pub ScanContext);

pub struct FractionScanner;

pub struct MetaControlScanner;

pub struct InstrumentScanner;

pub struct VolumeScanner;

impl Scanner for GrammarScanner {
    type Output = Grammar;

    open spec fn can_scan(&self, input: Seq<char>) -> bool {
        grammar_ok(input)
    }

    open spec fn scan_rest(&self, input: Seq<char>) -> Option<Seq<char>> {
        match scan_grammar(input) {
            Some(_) => Some(Seq::empty()),
            None => None,
        }
    }

    open spec fn gives(&self, input: Seq<char>, out: Grammar) -> bool {
        scan_grammar(input) == Some(grammar_view(out))
    }

    fn scan<'a>(&self, input: &'a str) -> (r: ScanResult<(Grammar, &'a str)>) {
        let c = str_to_chars(input);
        match grammar_of(&c) {
            Ok(g) => {
                let rest = rest_from(input, &c, c.len());
                assert(rest@ =~= Seq::<char>::empty());
                Ok((g, rest))
            },
            Err(e) => Err(e),
        }
    }
}

impl Scanner for ProductionScanner {
    type Output = Production;

    open spec fn can_scan(&self, input: Seq<char>) -> bool {
        production_ok(input, self.0.time_signature)
    }

    open spec fn scan_rest(&self, input: Seq<char>) -> Option<Seq<char>> {
        match scan_production(input, self.0.time_signature) {
            Some(_) => Some(Seq::empty()),
            None => None,
        }
    }

    open spec fn gives(&self, input: Seq<char>, out: Production) -> bool {
        scan_production(input, self.0.time_signature) == Some(production_view(out))
    }

    fn scan<'a>(&self, input: &'a str) -> (r: ScanResult<(Production, &'a str)>) {
        let c = str_to_chars(input);
        assert(c@.subrange(0, c@.len() as int) =~= c@);
        match production_at(&c, 0, c.len(), self.0.time_signature) {
            Ok(p) => {
                let rest = rest_from(input, &c, c.len());
                assert(rest@ =~= Seq::<char>::empty());
                Ok((p, rest))
            },
            Err(e) => Err(e),
        }
    }
}

impl Scanner for MusicStringScanner {
    type Output = MusicString;

    open spec fn can_scan(&self, input: Seq<char>) -> bool {
        ms_ok(input, self.0.time_signature)
    }

    open spec fn scan_rest(&self, input: Seq<char>) -> Option<Seq<char>> {
        match scan_ms(input, self.0.time_signature) {
            Some(_) => Some(Seq::empty()),
            None => None,
        }
    }

    open spec fn gives(&self, input: Seq<char>, out: MusicString) -> bool {
        scan_ms(input, self.0.time_signature) == Some(ms_view(out))
    }

    fn scan<'a>(&self, input: &'a str) -> (r: ScanResult<(MusicString, &'a str)>) {
        let c = str_to_chars(input);
        assert(c@.subrange(0, c@.len() as int) =~= c@);
        match ms_at(&c, 0, c.len(), self.0.time_signature) {
            Ok(ms) => {
                let rest = rest_from(input, &c, c.len());
                assert(rest@ =~= Seq::<char>::empty());
                Ok((ms, rest))
            },
            Err(e) => Err(e),
        }
    }
}

/// The rest of a scan that gives `(x, rest)` as a rest alone.
pub open spec fn rest_of<X>(r: Option<(X, Seq<char>)>) -> Option<Seq<char>> {
    match r {
        Some((_, rest)) => Some(rest),
        None => None,
    }
}

impl Scanner for MusicPrimitiveScanner {
    type Output = MusicPrimitive;

    open spec fn can_scan(&self, input: Seq<char>) -> bool {
        prim_ok(input, self.0.time_signature)
    }

    open spec fn scan_rest(&self, input: Seq<char>) -> Option<Seq<char>> {
        rest_of(scan_prim(input, self.0.time_signature))
    }

    open spec fn gives(&self, input: Seq<char>, out: MusicPrimitive) -> bool {
        scan_prim(input, self.0.time_signature) matches Some((p, _)) && p == prim_view(out)
    }

    fn scan<'a>(&self, input: &'a str) -> (r: ScanResult<(MusicPrimitive, &'a str)>) {
        let c = str_to_chars(input);
        assert(c@.subrange(0, c@.len() as int) =~= c@);
        match prim_at(&c, 0, c.len(), self.0.time_signature) {
            Ok((p, np)) => Ok((p, rest_from(input, &c, np))),
            Err(e) => Err(e),
        }
    }
}

impl Scanner for MusicPrimitiveSplitScanner {
    type Output = MusicPrimitive;

    open spec fn can_scan(&self, input: Seq<char>) -> bool {
        prim_ok(input, self.0.time_signature)
    }

    open spec fn scan_rest(&self, input: Seq<char>) -> Option<Seq<char>> {
        if input.len() > 0 && input[0] == '{' {
            rest_of(scan_prim(input, self.0.time_signature))
        } else {
            None
        }
    }

    open spec fn gives(&self, input: Seq<char>, out: MusicPrimitive) -> bool {
        scan_prim(input, self.0.time_signature) matches Some((p, _)) && p == prim_view(out)
    }

    fn scan<'a>(&self, input: &'a str) -> (r: ScanResult<(MusicPrimitive, &'a str)>) {
        let c = str_to_chars(input);
        assert(c@.subrange(0, c@.len() as int) =~= c@);
        if c.len() == 0 || c[0] != '{' {
            return Err(generic_error("Expected '{'"));
        }
        match split_at(&c, 0, c.len(), self.0.time_signature) {
            Ok((p, np)) => Ok((p, rest_from(input, &c, np))),
            Err(e) => Err(e),
        }
    }
}

impl Scanner for MusicPrimitiveRepeatScanner {
    type Output = MusicPrimitive;

    open spec fn can_scan(&self, input: Seq<char>) -> bool {
        prim_ok(input, self.0.time_signature)
    }

    open spec fn scan_rest(&self, input: Seq<char>) -> Option<Seq<char>> {
        if input.len() > 0 && input[0] == '[' {
            rest_of(scan_prim(input, self.0.time_signature))
        } else {
            None
        }
    }

    open spec fn gives(&self, input: Seq<char>, out: MusicPrimitive) -> bool {
        scan_prim(input, self.0.time_signature) matches Some((p, _)) && p == prim_view(out)
    }

    fn scan<'a>(&self, input: &'a str) -> (r: ScanResult<(MusicPrimitive, &'a str)>) {
        let c = str_to_chars(input);
        assert(c@.subrange(0, c@.len() as int) =~= c@);
        if c.len() == 0 || c[0] != '[' {
            return Err(generic_error("Expected '['"));
        }
        match repeat_at(&c, 0, c.len(), self.0.time_signature) {
            Ok((p, np)) => Ok((p, rest_from(input, &c, np))),
            Err(e) => Err(e),
        }
    }
}

impl Scanner for MusicTransformScanner {
    type Output = MusicTransform;

    open spec fn can_scan(&self, input: Seq<char>) -> bool {
        transform_ok(input)
    }

    open spec fn scan_rest(&self, input: Seq<char>) -> Option<Seq<char>> {
        match scan_transform(input) {
            Some(_) => Some(Seq::empty()),
            None => None,
        }
    }

    open spec fn gives(&self, input: Seq<char>, out: MusicTransform) -> bool {
        scan_transform(input) == Some(out)
    }

    fn scan<'a>(&self, input: &'a str) -> (r: ScanResult<(MusicTransform, &'a str)>) {
        let c = str_to_chars(input);
        assert(c@.subrange(0, c@.len() as int) =~= c@);
        match transform_at(&c, 0, c.len()) {
            Ok(t) => {
                let rest = rest_from(input, &c, c.len());
                assert(rest@ =~= Seq::<char>::empty());
                Ok((t, rest))
            },
            Err(e) => Err(e),
        }
    }
}

impl Scanner for SymbolScanner {
    type Output = Symbol;

    open spec fn can_scan(&self, input: Seq<char>) -> bool {
        symbol_ok(input)
    }

    open spec fn scan_rest(&self, input: Seq<char>) -> Option<Seq<char>> {
        rest_of(scan_symbol(input, self.0.time_signature))
    }

    open spec fn gives(&self, input: Seq<char>, out: Symbol) -> bool {
        scan_symbol(input, self.0.time_signature) matches Some((v, _)) && v == symbol_view(out)
    }

    fn scan<'a>(&self, input: &'a str) -> (r: ScanResult<(Symbol, &'a str)>) {
        let c = str_to_chars(input);
        assert(c@.subrange(0, c@.len() as int) =~= c@);
        match symbol_at(&c, 0, c.len(), self.0.time_signature) {
            Ok((sym, p)) => Ok((sym, rest_from(input, &c, p))),
            Err(e) => Err(e),
        }
    }
}

impl Scanner for NonTerminalScanner {
    type Output = String;

    open spec fn can_scan(&self, input: Seq<char>) -> bool {
        true
    }

    open spec fn scan_rest(&self, input: Seq<char>) -> Option<Seq<char>> {
        rest_of(scan_nonterminal(input))
    }

    open spec fn gives(&self, input: Seq<char>, out: String) -> bool {
        scan_nonterminal(input) matches Some((name, _)) && name == out@
    }

    fn scan<'a>(&self, input: &'a str) -> (r: ScanResult<(String, &'a str)>) {
        let c = str_to_chars(input);
        assert(c@.subrange(0, c@.len() as int) =~= c@);
        match nonterminal_at(&c, 0, c.len()) {
            Ok((name, p)) => Ok((name, rest_from(input, &c, p))),
            Err(e) => Err(e),
        }
    }
}

impl Scanner for TerminalScanner {
    type Output = Terminal;

    open spec fn can_scan(&self, input: Seq<char>) -> bool {
        terminal_ok(input)
    }

    open spec fn scan_rest(&self, input: Seq<char>) -> Option<Seq<char>> {
        rest_of(scan_terminal(input, self.0.time_signature))
    }

    open spec fn gives(&self, input: Seq<char>, out: Terminal) -> bool {
        scan_terminal(input, self.0.time_signature) matches Some((t, _)) && t == out
    }

    fn scan<'a>(&self, input: &'a str) -> (r: ScanResult<(Terminal, &'a str)>) {
        let c = str_to_chars(input);
        assert(c@.subrange(0, c@.len() as int) =~= c@);
        match terminal_at(&c, 0, c.len(), self.0.time_signature) {
            Ok((t, p)) => Ok((t, rest_from(input, &c, p))),
            Err(e) => Err(e),
        }
    }
}

impl Scanner for NoteScanner {
    type Output = TerminalNote;

    open spec fn can_scan(&self, input: Seq<char>) -> bool {
        true
    }

    open spec fn scan_rest(&self, input: Seq<char>) -> Option<Seq<char>> {
        rest_of(scan_note(input))
    }

    open spec fn gives(&self, input: Seq<char>, out: TerminalNote) -> bool {
        scan_note(input) matches Some((n, _)) && n == out
    }

    fn scan<'a>(&self, input: &'a str) -> (r: ScanResult<(TerminalNote, &'a str)>) {
        let c = str_to_chars(input);
        assert(c@.subrange(0, c@.len() as int) =~= c@);
        match note_at(&c, 0, c.len()) {
            Ok((n, p)) => Ok((n, rest_from(input, &c, p))),
            Err(e) => Err(e),
        }
    }
}

impl Scanner for NoteValueScanner {
    type Output = NoteValue;

    open spec fn can_scan(&self, input: Seq<char>) -> bool {
        note_value_ok(input)
    }

    open spec fn scan_rest(&self, input: Seq<char>) -> Option<Seq<char>> {
        rest_of(scan_note_value(input))
    }

    open spec fn gives(&self, input: Seq<char>, out: NoteValue) -> bool {
        scan_note_value(input) matches Some((v, _)) && v == out
    }

    fn scan<'a>(&self, input: &'a str) -> (r: ScanResult<(NoteValue, &'a str)>) {
        let c = str_to_chars(input);
        assert(c@.subrange(0, c@.len() as int) =~= c@);
        match note_value_at(&c, 0, c.len()) {
            Ok((v, p)) => Ok((v, rest_from(input, &c, p))),
            Err(e) => Err(e),
        }
    }
}

impl Scanner for FractionScanner {
    type Output = SignedRatio;

    open spec fn can_scan(&self, input: Seq<char>) -> bool {
        fraction_ok(input)
    }

    open spec fn scan_rest(&self, input: Seq<char>) -> Option<Seq<char>> {
        match scan_fraction(input) {
            Some(_) => Some(Seq::empty()),
            None => None,
        }
    }

    open spec fn gives(&self, input: Seq<char>, out: SignedRatio) -> bool {
        scan_fraction(input) == Some(out)
    }

    fn scan<'a>(&self, input: &'a str) -> (r: ScanResult<(SignedRatio, &'a str)>) {
        let c = str_to_chars(input);
        assert(c@.subrange(0, c@.len() as int) =~= c@);
        match fraction_at(&c, 0, c.len()) {
            Ok(f) => {
                let rest = rest_from(input, &c, c.len());
                assert(rest@ =~= Seq::<char>::empty());
                Ok((f, rest))
            },
            Err(e) => Err(e),
        }
    }
}

impl Scanner for MetaControlScanner {
    type Output = MetaControl;

    open spec fn can_scan(&self, input: Seq<char>) -> bool {
        meta_ok(input)
    }

    open spec fn scan_rest(&self, input: Seq<char>) -> Option<Seq<char>> {
        rest_of(scan_meta(input))
    }

    open spec fn gives(&self, input: Seq<char>, out: MetaControl) -> bool {
        scan_meta(input) matches Some((m, _)) && m == out
    }

    fn scan<'a>(&self, input: &'a str) -> (r: ScanResult<(MetaControl, &'a str)>) {
        let c = str_to_chars(input);
        assert(c@.subrange(0, c@.len() as int) =~= c@);
        match meta_at(&c, 0, c.len()) {
            Ok((m, p)) => Ok((m, rest_from(input, &c, p))),
            Err(e) => Err(e),
        }
    }
}

impl Scanner for InstrumentScanner {
    type Output = Instrument;

    open spec fn can_scan(&self, input: Seq<char>) -> bool {
        instrument_known(input)
    }

    open spec fn scan_rest(&self, input: Seq<char>) -> Option<Seq<char>> {
        rest_of(scan_instrument(input))
    }

    open spec fn gives(&self, input: Seq<char>, out: Instrument) -> bool {
        scan_instrument(input) matches Some((i, _)) && i == out
    }

    fn scan<'a>(&self, input: &'a str) -> (r: ScanResult<(Instrument, &'a str)>) {
        let c = str_to_chars(input);
        assert(c@.subrange(0, c@.len() as int) =~= c@);
        match instrument_at(&c, 0, c.len()) {
            Ok((i, p)) => Ok((i, rest_from(input, &c, p))),
            Err(e) => Err(e),
        }
    }
}

impl Scanner for VolumeScanner {
    type Output = Volume;

    open spec fn can_scan(&self, input: Seq<char>) -> bool {
        volume_fits(input)
    }

    open spec fn scan_rest(&self, input: Seq<char>) -> Option<Seq<char>> {
        rest_of(scan_volume(input))
    }

    open spec fn gives(&self, input: Seq<char>, out: Volume) -> bool {
        scan_volume(input) matches Some((v, _)) && v == out
    }

    fn scan<'a>(&self, input: &'a str) -> (r: ScanResult<(Volume, &'a str)>) {
        let c = str_to_chars(input);
        assert(c@.subrange(0, c@.len() as int) =~= c@);
        match volume_at(&c, 0, c.len()) {
            Ok((v, p)) => Ok((v, rest_from(input, &c, p))),
            Err(e) => Err(e),
        }
    }
}

/// Reads exactly the given string.
pub struct StringScanner(pub String);

impl Scanner for StringScanner {
    type Output = String;

    open spec fn can_scan(&self, input: Seq<char>) -> bool {
        true
    }

    open spec fn scan_rest(&self, input: Seq<char>) -> Option<Seq<char>> {
        if self.0@.len() <= input.len() && input.take(self.0@.len() as int) == self.0@ {
            Some(input.skip(self.0@.len() as int))
        } else {
            None
        }
    }

    open spec fn gives(&self, input: Seq<char>, out: String) -> bool {
        out@ == self.0@
    }

    fn scan<'a>(&self, input: &'a str) -> (r: ScanResult<(String, &'a str)>) {
        let c = str_to_chars(input);
        let w = self.0.as_str();
        if chars_start_with(&c, 0, c.len(), w) {
            let n = w.unicode_len();
            assert(input@.take(n as int) =~= c@.subrange(0, n as int));
            Ok((self.0.clone(), rest_from(input, &c, n)))
        } else {
            assert(self.0@.len() <= input@.len() ==> input@.take(self.0@.len() as int) =~= c@.subrange(
                0,
                self.0@.len() as int,
            ));
            let mut m = String::from_str("Expected string: ");
            m.append(w);
            Err(ScanError::Generic(m))
        }
    }
}

/// Reads white space, at least one character of it.
pub struct SpaceScanner;

impl Scanner for SpaceScanner {
    type Output = ();

    open spec fn can_scan(&self, input: Seq<char>) -> bool {
        true
    }

    open spec fn scan_rest(&self, input: Seq<char>) -> Option<Seq<char>> {
        if leading_ws(input) > 0 {
            Some(trim_start_spec(input))
        } else {
            None
        }
    }

    open spec fn gives(&self, input: Seq<char>, out: ()) -> bool {
        true
    }

    fn scan<'a>(&self, input: &'a str) -> (r: ScanResult<((), &'a str)>) {
        let c = str_to_chars(input);
        assert(c@.subrange(0, c@.len() as int) =~= c@);
        let p = skip_ws(&c, 0, c.len());
        if p > 0 {
            Ok(((), rest_from(input, &c, p)))
        } else {
            Err(generic_error("Expected space"))
        }
    }
}

/// Requires the inner scanner to read all of the input.
pub struct ConsumeScanner<S>(pub S);

impl<S: Scanner> Scanner for ConsumeScanner<S> {
    type Output = S::Output;

    open spec fn can_scan(&self, input: Seq<char>) -> bool {
        self.0.can_scan(input)
    }

    open spec fn scan_rest(&self, input: Seq<char>) -> Option<Seq<char>> {
        match self.0.scan_rest(input) {
            Some(rest) => if rest.len() == 0 {
                Some(rest)
            } else {
                None
            },
            None => None,
        }
    }

    open spec fn gives(&self, input: Seq<char>, out: S::Output) -> bool {
        self.0.gives(input, out)
    }

    fn scan<'a>(&self, input: &'a str) -> (r: ScanResult<(S::Output, &'a str)>)
        ensures
            (self.0.scan_rest(input@) matches Some(rest) && rest.len() > 0) ==> (r matches Err(
                ScanError::Generic(m),
            ) && m@ == "Did not consume entire input"@),
    {
        match self.0.scan(input) {
            Ok((output, new_input)) => {
                if new_input.unicode_len() == 0 {
                    Ok((output, new_input))
                } else {
                    Err(generic_error("Did not consume entire input"))
                }
            },
            Err(e) => Err(e),
        }
    }
}

/// Reads with the first scanner, then with the second from where the first stopped.
pub struct ConcatScan<S, T>(pub S, pub T);

impl<S: Scanner, T: Scanner> Scanner for ConcatScan<S, T> {
    type Output = (S::Output, T::Output);

    open spec fn can_scan(&self, input: Seq<char>) -> bool {
        &&& self.0.can_scan(input)
        &&& (self.0.scan_rest(input) matches Some(r1) ==> self.1.can_scan(r1))
    }

    open spec fn scan_rest(&self, input: Seq<char>) -> Option<Seq<char>> {
        match self.0.scan_rest(input) {
            Some(r1) => self.1.scan_rest(r1),
            None => None,
        }
    }

    open spec fn gives(&self, input: Seq<char>, out: (S::Output, T::Output)) -> bool {
        self.0.scan_rest(input) matches Some(r1) && self.0.gives(input, out.0) && self.1.gives(
            r1,
            out.1,
        )
    }

    fn scan<'a>(&self, input: &'a str) -> (r: ScanResult<((S::Output, T::Output), &'a str)>) {
        match self.0.scan(input) {
            Ok((u, new_input)) => match self.1.scan(new_input) {
                Ok((v, s)) => Ok(((u, v), s)),
                Err(e) => Err(e),
            },
            Err(e) => Err(e),
        }
    }
}

/// A text that the scanners peek at without reading it.
pub type ScanPrefix = String;

/// Peek at the input: when it starts with the first prefix, read with the first scanner;
/// otherwise read with the second, if its prefix matches or it has none; otherwise fail.
pub struct DisjointScan<S, T> {
    pub scanner_a: (ScanPrefix, S),
    pub scanner_b: (Option<ScanPrefix>, T),
}

/// `input` starts with `p`.
pub open spec fn starts_with(input: Seq<char>, p: Seq<char>) -> bool {
    p.len() <= input.len() && input.take(p.len() as int) == p
}

impl<U, S: Scanner<Output = U>, T: Scanner<Output = U>> Scanner for DisjointScan<S, T> {
    type Output = U;

    open spec fn can_scan(&self, input: Seq<char>) -> bool {
        if starts_with(input, self.scanner_a.0@) {
            self.scanner_a.1.can_scan(input)
        } else {
            match self.scanner_b.0 {
                Some(p) => starts_with(input, p@) ==> self.scanner_b.1.can_scan(input),
                None => self.scanner_b.1.can_scan(input),
            }
        }
    }

    open spec fn scan_rest(&self, input: Seq<char>) -> Option<Seq<char>> {
        if starts_with(input, self.scanner_a.0@) {
            self.scanner_a.1.scan_rest(input)
        } else {
            match self.scanner_b.0 {
                Some(p) => if starts_with(input, p@) {
                    self.scanner_b.1.scan_rest(input)
                } else {
                    None
                },
                None => self.scanner_b.1.scan_rest(input),
            }
        }
    }

    open spec fn gives(&self, input: Seq<char>, out: U) -> bool {
        if starts_with(input, self.scanner_a.0@) {
            self.scanner_a.1.gives(input, out)
        } else {
            self.scanner_b.1.gives(input, out)
        }
    }

    fn scan<'a>(&self, input: &'a str) -> (r: ScanResult<(U, &'a str)>)
        ensures
            self.scanner_b.0 matches Some(p) ==> (!starts_with(input@, self.scanner_a.0@)
                && !starts_with(input@, p@) ==> (r matches Err(ScanError::ExpectedEither(x, y))
                && x@ == self.scanner_a.0@ && y@ == p@)),
    {
        let c = str_to_chars(input);
        if chars_prefix(&c, 0, c.len(), self.scanner_a.0.as_str()) {
            assert(c@.subrange(0, c@.len() as int) =~= input@);
            self.scanner_a.1.scan(input)
        } else {
            assert(c@.subrange(0, c@.len() as int) =~= input@);
            match &self.scanner_b.0 {
                Some(prefix) => {
                    if chars_prefix(&c, 0, c.len(), prefix.as_str()) {
                        self.scanner_b.1.scan(input)
                    } else {
                        Err(
                            ScanError::ExpectedEither(
                                self.scanner_a.0.clone(),
                                prefix.clone(),
                            ),
                        )
                    }
                },
                None => self.scanner_b.1.scan(input),
            }
        }
    }
}

/// Read all of the input with `scan`.
pub fn consume<S: Scanner>(scan: S) -> (r: ConsumeScanner<S>)
    ensures
        r.0 == scan,
{
    ConsumeScanner(scan)
}

/// Read with `scan1`, then with `scan2`.
pub fn concat<S: Scanner, T: Scanner>(scan1: S, scan2: T) -> (r: ConcatScan<S, T>)
    ensures
        r.0 == scan1,
        r.1 == scan2,
{
    ConcatScan(scan1, scan2)
}

/// Peek at `prefix1` to choose `scan1`; otherwise use `scan2` if `prefix2` matches or is
/// absent.
pub fn disjoint<U, S: Scanner<Output = U>, T: Scanner<Output = U>>(
    prefix1: ScanPrefix,
    scan1: S,
    prefix2: Option<ScanPrefix>,
    scan2: T,
) -> (r: DisjointScan<S, T>)
    ensures
        r.scanner_a == (prefix1, scan1),
        r.scanner_b == (prefix2, scan2),
{
    DisjointScan { scanner_a: (prefix1, scan1), scanner_b: (prefix2, scan2) }
}

/// Reads with the inner scanner and hands what it read to `mapper`.
pub struct MapScanner<S, F> {
    pub scanner: S,
    pub mapper: F,
}

impl<S: Scanner, T, F: Fn(S::Output) -> T> Scanner for MapScanner<S, F> {
    type Output = T;

    open spec fn can_scan(&self, input: Seq<char>) -> bool {
        &&& self.scanner.can_scan(input)
        &&& forall|o: S::Output| self.mapper.requires((o,))
    }

    open spec fn scan_rest(&self, input: Seq<char>) -> Option<Seq<char>> {
        self.scanner.scan_rest(input)
    }

    open spec fn gives(&self, input: Seq<char>, out: T) -> bool {
        exists|o: S::Output| self.scanner.gives(input, o) && self.mapper.ensures((o,), out)
    }

    fn scan<'a>(&self, input: &'a str) -> (r: ScanResult<(T, &'a str)>) {
        match self.scanner.scan(input) {
            Ok((output, new_input)) => {
                let mapped = (self.mapper)(output);
                Ok((mapped, new_input))
            },
            Err(e) => Err(e),
        }
    }
}

/// Read with `scan`, and give what `map` makes of what it read.
pub fn scan_map<S: Scanner, T, F: Fn(S::Output) -> T>(scan: S, map: F) -> (r: MapScanner<S, F>)
    ensures
        r.scanner == scan,
        r.mapper == map,
{
    MapScanner { scanner: scan, mapper: map }
}

/// Reads with the inner scanner again and again, each time from where the last read
/// stopped, until a read fails; gives all that was read.
pub struct KleeneScan<S>(pub S);

impl<S: Scanner> KleeneScan<S> {
    /// The inputs at which the successive reads start, up to the first that fails.
    pub open spec fn starts(&self, input: Seq<char>) -> Seq<Seq<char>>
        decreases input.len(),
    {
        match self.0.scan_rest(input) {
            Some(r) => if r.len() < input.len() {
                seq![input] + self.starts(r)
            } else {
                seq![input]
            },
            None => Seq::empty(),
        }
    }

    /// What remains after the last successful read.
    pub open spec fn end(&self, input: Seq<char>) -> Seq<char>
        decreases input.len(),
    {
        match self.0.scan_rest(input) {
            Some(r) => if r.len() < input.len() {
                self.end(r)
            } else {
                r
            },
            None => input,
        }
    }

    /// Every read on the way can be made, and every successful one reads something: without
    /// that, the reads would never stop.
    pub open spec fn progresses(&self, input: Seq<char>) -> bool
        decreases input.len(),
    {
        &&& self.0.can_scan(input)
        &&& match self.0.scan_rest(input) {
            Some(r) => r.len() < input.len() && self.progresses(r),
            None => true,
        }
    }

    /// The reads of a repeated scan: the first starts at the input, each of the others where
    /// the one before stopped, what remains is where the last stopped (the input itself when
    /// no read succeeded), and there the inner scanner fails.
    pub proof fn lemma_kleene_reads(&self, input: Seq<char>)
        requires
            self.progresses(input),
        ensures
            self.0.scan_rest(self.end(input)) is None,
            self.starts(input).len() > 0 ==> self.starts(input)[0] == input,
            forall|k: int|
                0 <= k < self.starts(input).len() - 1 ==> self.0.scan_rest(
                    #[trigger] self.starts(input)[k],
                ) == Some(self.starts(input)[k + 1]),
            self.starts(input).len() > 0 ==> self.0.scan_rest(self.starts(input).last()) == Some(
                self.end(input),
            ),
            self.starts(input).len() == 0 ==> self.end(input) == input,
        decreases input.len(),
    {
        match self.0.scan_rest(input) {
            Some(r) => {
                self.lemma_kleene_reads(r);
                let st = self.starts(input);
                let sr = self.starts(r);
                assert(st == seq![input] + sr);
                assert forall|k: int| 0 <= k < st.len() - 1 implies self.0.scan_rest(
                    #[trigger] st[k],
                ) == Some(st[k + 1]) by {
                    if k > 0 {
                        assert(st[k] == sr[k - 1]);
                        assert(st[k + 1] == sr[k]);
                    } else {
                        assert(st[1] == sr[0]);
                    }
                }
                if sr.len() > 0 {
                    assert(st.last() == sr.last());
                }
            },
            None => {},
        }
    }
}

impl<S: Scanner> Scanner for KleeneScan<S> {
    type Output = Vec<S::Output>;

    open spec fn can_scan(&self, input: Seq<char>) -> bool {
        self.progresses(input)
    }

    open spec fn scan_rest(&self, input: Seq<char>) -> Option<Seq<char>> {
        Some(self.end(input))
    }

    open spec fn gives(&self, input: Seq<char>, out: Vec<S::Output>) -> bool {
        &&& out@.len() == self.starts(input).len()
        &&& forall|k: int| 0 <= k < out@.len() ==> self.0.gives(#[trigger] self.starts(input)[k], out@[k])
    }

    fn scan<'a>(&self, input: &'a str) -> (r: ScanResult<(Vec<S::Output>, &'a str)>) {
        let mut results: Vec<S::Output> = Vec::new();
        let mut remaining = input;
        let ghost mut done: Seq<Seq<char>> = Seq::empty();
        loop
            invariant
                self.progresses(remaining@),
                self.starts(input@) == done + self.starts(remaining@),
                self.end(input@) == self.end(remaining@),
                results@.len() == done.len(),
                forall|k: int| 0 <= k < done.len() ==> self.0.gives(#[trigger] done[k], results@[k]),
            ensures
                self.0.scan_rest(remaining@) is None,
            decreases remaining@.len(),
        {
            match self.0.scan(remaining) {
                Ok((result, new_input)) => {
                    proof {
                        assert(self.starts(remaining@) == seq![remaining@] + self.starts(new_input@));
                        assert(done + self.starts(remaining@) =~= done.push(remaining@) + self.starts(new_input@));
                        done = done.push(remaining@);
                    }
                    results.push(result);
                    remaining = new_input;
                },
                Err(_) => {
                    proof {
                        assert(self.starts(remaining@) =~= Seq::<Seq<char>>::empty());
                        assert(done + self.starts(remaining@) =~= done);
                    }
                    break;
                },
            }
        }
        Ok((results, remaining))
    }
}

/// Read with `scan` as often as it succeeds.
pub fn kleene<S: Scanner>(scan: S) -> (r: KleeneScan<S>)
    ensures
        r.0 == scan,
{
    KleeneScan(scan)
}

/// Reads with the inner scanner from what `mapper` makes of the input.
pub struct MapInputScanner<S, F> {
    pub scanner: S,
    pub mapper: F,
}

impl<S: Scanner, F: Fn(&str) -> &str> MapInputScanner<S, F> {
    /// Every text `mapper` makes of `input` reads as `m`.
    pub open spec fn maps_to(&self, input: Seq<char>, m: Seq<char>) -> bool {
        forall|s: &str, t: &str| s@ == input && #[trigger] self.mapper.ensures((s,), t) ==> t@ == m
    }

    /// What `mapper` makes of `input`.
    pub open spec fn mapped(&self, input: Seq<char>) -> Seq<char> {
        choose|m: Seq<char>| self.maps_to(input, m)
    }
}

impl<S: Scanner, F: Fn(&str) -> &str> Scanner for MapInputScanner<S, F> {
    type Output = S::Output;

    open spec fn can_scan(&self, input: Seq<char>) -> bool {
        &&& forall|s: &str| s@ == input ==> #[trigger] self.mapper.requires((s,))
        &&& exists|m: Seq<char>| self.maps_to(input, m)
        &&& self.scanner.can_scan(self.mapped(input))
    }

    open spec fn scan_rest(&self, input: Seq<char>) -> Option<Seq<char>> {
        self.scanner.scan_rest(self.mapped(input))
    }

    open spec fn gives(&self, input: Seq<char>, out: S::Output) -> bool {
        self.scanner.gives(self.mapped(input), out)
    }

    fn scan<'a>(&self, input: &'a str) -> (r: ScanResult<(S::Output, &'a str)>) {
        let m = (self.mapper)(input);
        proof {
            let w = choose|w: Seq<char>| self.maps_to(input@, w);
            assert(self.maps_to(input@, w));
            assert(m@ == w);
        }
        self.scanner.scan(m)
    }
}

/// Read with `scan` from what `map` makes of the input.
pub fn scan_map_input<S: Scanner, F: Fn(&str) -> &str>(scan: S, map: F) -> (r: MapInputScanner<S, F>)
    ensures
        r.scanner == scan,
        r.mapper == map,
{
    MapInputScanner { scanner: scan, mapper: map }
}

/// `s` without white space at either end.
pub fn trim_str(s: &str) -> (r: &str)
    ensures
        r@ == trim_spec(s@),
{
    let c = str_to_chars(s);
    let lo = skip_ws(&c, 0, c.len());
    let hi = skip_ws_back(&c, lo, c.len());
    proof {
        assert(c@.subrange(0, c@.len() as int) =~= s@);
        let t = trim_start_spec(s@);
        assert(t =~= c@.subrange(lo as int, c@.len() as int));
        assert(c@.subrange(lo as int, hi as int) =~= trim_spec(s@));
    }
    s.substring_char(lo, hi)
}

/// Read with `scan` from the input without white space at either end.
pub fn trim<S: Scanner>(scan: S) -> (r: MapInputScanner<S, impl Fn(&str) -> &str>)
    ensures
        r.scanner == scan,
        forall|s: &str| #[trigger] r.mapper.requires((s,)),
        forall|s: &str, t: &str| #[trigger] r.mapper.ensures((s,), t) ==> t@ == trim_spec(s@),
{
    scan_map_input(scan, |s: &str| -> (t: &str)
        ensures
            t@ == trim_spec(s@),
        { trim_str(s) })
}

} // verus!
