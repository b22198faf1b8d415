use vstd::prelude::*;

verus! {

/// Unicode white space, as `char::is_whitespace` decides it.
pub open spec fn is_ws(c: char) -> bool {
    ||| ('\u{9}' <= c && c <= '\u{d}')
    ||| c == ' '
    ||| c == '\u{85}'
    ||| c == '\u{a0}'
    ||| c == '\u{1680}'
    ||| ('\u{2000}' <= c && c <= '\u{200a}')
    ||| c == '\u{2028}'
    ||| c == '\u{2029}'
    ||| c == '\u{202f}'
    ||| c == '\u{205f}'
    ||| c == '\u{3000}'
}

pub fn is_whitespace(c: char) -> (b: bool)
    ensures
        b == is_ws(c),
{
    ('\u{9}' <= c && c <= '\u{d}') || c == ' ' || c == '\u{85}' || c == '\u{a0}' || c == '\u{1680}'
        || ('\u{2000}' <= c && c <= '\u{200a}') || c == '\u{2028}' || c == '\u{2029}' || c
        == '\u{202f}' || c == '\u{205f}' || c == '\u{3000}'
}

/// The number of leading white-space characters of `s`.
pub open spec fn leading_ws(s: Seq<char>) -> nat
    decreases s.len(),
{
    if s.len() > 0 && is_ws(s[0]) {
        1 + leading_ws(s.drop_first())
    } else {
        0
    }
}

/// The number of trailing white-space characters of `s`.
pub open spec fn trailing_ws(s: Seq<char>) -> nat
    decreases s.len(),
{
    if s.len() > 0 && is_ws(s.last()) {
        1 + trailing_ws(s.drop_last())
    } else {
        0
    }
}

/// `s` without its leading white space.
pub open spec fn trim_start_spec(s: Seq<char>) -> Seq<char> {
    s.subrange(leading_ws(s) as int, s.len() as int)
}

/// `s` without its trailing white space.
pub open spec fn trim_end_spec(s: Seq<char>) -> Seq<char> {
    s.subrange(0, s.len() - trailing_ws(s))
}

/// `s` without white space at either end.
pub open spec fn trim_spec(s: Seq<char>) -> Seq<char> {
    trim_end_spec(trim_start_spec(s))
}

proof fn lemma_leading_ws_bound(s: Seq<char>)
    ensures
        leading_ws(s) <= s.len(),
        forall|k: int| 0 <= k < leading_ws(s) ==> is_ws(#[trigger] s[k]),
        leading_ws(s) < s.len() ==> !is_ws(s[leading_ws(s) as int]),
    decreases s.len(),
{
    if s.len() > 0 && is_ws(s[0]) {
        lemma_leading_ws_bound(s.drop_first());
        assert forall|k: int| 0 <= k < leading_ws(s) implies is_ws(#[trigger] s[k]) by {
            if k > 0 {
                assert(s[k] == s.drop_first()[k - 1]);
            }
        }
    }
}

proof fn lemma_trailing_ws_bound(s: Seq<char>)
    ensures
        trailing_ws(s) <= s.len(),
        forall|k: int| s.len() - trailing_ws(s) <= k < s.len() ==> is_ws(#[trigger] s[k]),
        trailing_ws(s) < s.len() ==> !is_ws(s[s.len() - 1 - trailing_ws(s)]),
    decreases s.len(),
{
    if s.len() > 0 && is_ws(s.last()) {
        lemma_trailing_ws_bound(s.drop_last());
        assert forall|k: int| s.len() - trailing_ws(s) <= k < s.len() implies is_ws(#[trigger] s[k]) by {
            if k < s.len() - 1 {
                assert(s[k] == s.drop_last()[k]);
            }
        }
    }
}

/// The first position at or after `lo` in `c[lo..hi]` that is not white space.
pub fn skip_ws(c: &Vec<char>, lo: usize, hi: usize) -> (p: usize)
    requires
        lo <= hi <= c@.len(),
    ensures
        p == lo + leading_ws(c@.subrange(lo as int, hi as int)),
        lo <= p <= hi,
{
    let ghost s = c@.subrange(lo as int, hi as int);
    let mut p = lo;
    while p < hi && is_whitespace(c[p])
        invariant
            lo <= p <= hi <= c@.len(),
            s == c@.subrange(lo as int, hi as int),
            leading_ws(s) == (p - lo) + leading_ws(c@.subrange(p as int, hi as int)),
        decreases hi - p,
    {
        assert(c@.subrange(p as int, hi as int).drop_first() =~= c@.subrange(p + 1, hi as int));
        p = p + 1;
    }
    p
}

/// The end of `c[lo..hi]` without its trailing white space.
pub fn skip_ws_back(c: &Vec<char>, lo: usize, hi: usize) -> (p: usize)
    requires
        lo <= hi <= c@.len(),
    ensures
        p == hi - trailing_ws(c@.subrange(lo as int, hi as int)),
        lo <= p <= hi,
{
    let ghost s = c@.subrange(lo as int, hi as int);
    let mut p = hi;
    while p > lo && is_whitespace(c[p - 1])
        invariant
            lo <= p <= hi <= c@.len(),
            s == c@.subrange(lo as int, hi as int),
            trailing_ws(s) == (hi - p) + trailing_ws(c@.subrange(lo as int, p as int)),
        decreases p - lo,
    {
        assert(c@.subrange(lo as int, p as int).drop_last() =~= c@.subrange(lo as int, p - 1));
        p = p - 1;
    }
    p
}

/// `s` consists of decimal digits.
pub open spec fn all_digits(s: Seq<char>) -> bool {
    forall|k: int| 0 <= k < s.len() ==> '0' <= #[trigger] s[k] && s[k] <= '9'
}

/// The number that the decimal digits `s` spell.
pub open spec fn digits_value(s: Seq<char>) -> int
    decreases s.len(),
{
    if s.len() == 0 {
        0
    } else {
        digits_value(s.drop_last()) * 10 + (s.last() as int - '0' as int)
    }
}

/// What `str::parse` gives for an unsigned integer type whose largest value is `max`: an
/// optional `+`, then at least one decimal digit, and no more than `max`.
pub open spec fn parse_unsigned(s: Seq<char>, max: int) -> Option<int> {
    let body = if s.len() > 0 && s[0] == '+' {
        s.drop_first()
    } else {
        s
    };
    if body.len() > 0 && all_digits(body) && digits_value(body) <= max {
        Some(digits_value(body))
    } else {
        None
    }
}

/// What `str::parse` gives for a signed integer type with the range `min ..= max`.
pub open spec fn parse_signed(s: Seq<char>, min: int, max: int) -> Option<int> {
    if s.len() > 0 && s[0] == '-' {
        let body = s.drop_first();
        if body.len() > 0 && all_digits(body) && -digits_value(body) >= min {
            Some(-digits_value(body))
        } else {
            None
        }
    } else {
        parse_unsigned(s, max)
    }
}

/// A signed number that is read lies within the bounds it was read with.
pub proof fn lemma_parse_signed_range(s: Seq<char>, min: int, max: int)
    requires
        min <= 0 <= max,
    ensures
        parse_signed(s, min, max) matches Some(v) ==> min <= v <= max,
{
    if s.len() > 0 && s[0] == '-' && all_digits(s.drop_first()) {
        lemma_digits_nonneg(s.drop_first());
    }
    let body = if s.len() > 0 && s[0] == '+' {
        s.drop_first()
    } else {
        s
    };
    if all_digits(body) {
        lemma_digits_nonneg(body);
    }
}

proof fn lemma_digits_grow(s: Seq<char>, k: int)
    requires
        0 <= k <= s.len(),
        all_digits(s),
    ensures
        0 <= digits_value(s.subrange(0, k)) <= digits_value(s),
    decreases s.len() - k,
{
    if k < s.len() {
        lemma_digits_grow(s, k + 1);
        let t = s.subrange(0, k + 1);
        assert(t.drop_last() =~= s.subrange(0, k));
        assert(t.last() == s[k]);
    } else {
        assert(s.subrange(0, k) =~= s);
    }
    lemma_digits_nonneg(s.subrange(0, k));
}

proof fn lemma_digits_nonneg(s: Seq<char>)
    requires
        all_digits(s),
    ensures
        digits_value(s) >= 0,
    decreases s.len(),
{
    if s.len() > 0 {
        assert(all_digits(s.drop_last())) by {
            assert forall|k: int| 0 <= k < s.drop_last().len() implies '0' <= #[trigger] s.drop_last()[k]
                && s.drop_last()[k] <= '9' by {
                assert(s.drop_last()[k] == s[k]);
            }
        }
        lemma_digits_nonneg(s.drop_last());
    }
}

/// The value of the decimal digits `c[lo..hi]` if they are all digits, at least one, and the
/// value is at most `max`.
fn digits_upto(c: &Vec<char>, lo: usize, hi: usize, max: u64) -> (r: Option<u64>)
    requires
        lo <= hi <= c@.len(),
    ensures
        ({
            let s = c@.subrange(lo as int, hi as int);
            &&& r is Some <==> (s.len() > 0 && all_digits(s) && digits_value(s) <= max)
            &&& r matches Some(v) ==> v == digits_value(s)
        }),
{
    let ghost s = c@.subrange(lo as int, hi as int);
    if lo == hi {
        return None;
    }
    let mut acc: u64 = 0;
    let mut p = lo;
    while p < hi
        invariant
            lo <= p <= hi <= c@.len(),
            s == c@.subrange(lo as int, hi as int),
            all_digits(s.subrange(0, p - lo)),
            acc == digits_value(s.subrange(0, p - lo)),
            acc <= max,
        decreases hi - p,
    {
        let ch = c[p];
        if !('0' <= ch && ch <= '9') {
            assert(!all_digits(s)) by {
                assert(s[p - lo] == ch);
            }
            return None;
        }
        let d = (ch as u32 - '0' as u32) as u64;
        let ghost t = s.subrange(0, p - lo + 1);
        assert(t.drop_last() =~= s.subrange(0, p - lo));
        assert(t.last() == ch);
        if d > max || acc > (max - d) / 10 {
            proof {
                assert(acc * 10 + d > max) by (nonlinear_arith)
                    requires
                        d > max || acc > (max - d) / 10,
                        acc >= 0,
                ;
                if all_digits(s) {
                    lemma_digits_grow(s, p - lo + 1);
                }
            }
            return None;
        }
        acc = acc * 10 + d;
        assert(all_digits(t)) by {
            assert forall|k: int| 0 <= k < t.len() implies '0' <= #[trigger] t[k] && t[k] <= '9' by {
                if k < t.len() - 1 {
                    assert(t[k] == s.subrange(0, p - lo)[k]);
                }
            }
        }
        p = p + 1;
    }
    assert(s.subrange(0, hi - lo) =~= s);
    proof {
        lemma_digits_nonneg(s);
    }
    Some(acc)
}

/// `str::parse` for an unsigned integer type whose largest value is `max`, on `c[lo..hi]`.
pub fn parse_unsigned_in(c: &Vec<char>, lo: usize, hi: usize, max: u64) -> (r: Option<u64>)
    requires
        lo <= hi <= c@.len(),
    ensures
        r matches Some(v) ==> parse_unsigned(c@.subrange(lo as int, hi as int), max as int) == Some(
            v as int,
        ),
        r is None ==> parse_unsigned(c@.subrange(lo as int, hi as int), max as int) is None,
        r matches Some(v) ==> v <= max,
{
    let ghost s = c@.subrange(lo as int, hi as int);
    if lo < hi && c[lo] == '+' {
        assert(s.drop_first() =~= c@.subrange(lo + 1, hi as int));
        digits_upto(c, lo + 1, hi, max)
    } else {
        digits_upto(c, lo, hi, max)
    }
}

/// `str::parse` for a signed integer type with the range `-min_mag ..= max`, on `c[lo..hi]`.
pub fn parse_signed_in(c: &Vec<char>, lo: usize, hi: usize, min_mag: u64, max: u64) -> (r: Option<
    i128,
>)
    requires
        lo <= hi <= c@.len(),
    ensures
        r matches Some(v) ==> parse_signed(
            c@.subrange(lo as int, hi as int),
            -(min_mag as int),
            max as int,
        ) == Some(v as int),
        r is None ==> parse_signed(c@.subrange(lo as int, hi as int), -(min_mag as int), max as int)
            is None,
        r matches Some(v) ==> -(min_mag as int) <= v <= max,
{
    let ghost s = c@.subrange(lo as int, hi as int);
    if lo < hi && c[lo] == '-' {
        assert(s.drop_first() =~= c@.subrange(lo + 1, hi as int));
        match digits_upto(c, lo + 1, hi, min_mag) {
            Some(m) => Some(-(m as i128)),
            None => None,
        }
    } else {
        match parse_unsigned_in(c, lo, hi, max) {
            Some(v) => Some(v as i128),
            None => None,
        }
    }
}

} // verus!
