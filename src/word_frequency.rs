//! The word-frequency table: its line format and the records it holds.
use vstd::prelude::*;

use crate::text::pow10;
use vstd::slice::{slice_subrange, slice_to_vec};
use vstd::utf8::{decode_utf8, valid_utf8};

verus! {

/// One line of the frequency table.
#[derive(Debug)]
pub struct WordFrequency {
    /// The dictionary entry's sequence id.
    pub ent_seq: u32,
    /// The popularity, in millionths.
    pub popularity: i64,
    /// The spelling.
    pub term: String,
    /// The reading.
    pub reading: String,
}

/// What one frequency record holds.
pub ghost struct FrequencyView {
    pub ent_seq: nat,
    pub popularity: int,
    pub term: Seq<char>,
    pub reading: Seq<char>,
}

impl View for WordFrequency {
    type V = FrequencyView;

    open spec fn view(&self) -> FrequencyView {
        FrequencyView {
            ent_seq: self.ent_seq as nat,
            popularity: self.popularity as int,
            term: self.term@,
            reading: self.reading@,
        }
    }
}

/// The views of a list of records.
pub open spec fn frequency_views(v: Seq<WordFrequency>) -> Seq<FrequencyView> {
    v.map_values(|w: WordFrequency| w@)
}

/// Why the frequency table could not be read: the 1-based number and the bytes of the
/// first line that does not have the expected shape.
#[derive(Debug)]
pub struct ParseError {
    /// The 1-based line number.
    pub line: usize,
    /// The line's bytes, without its line break.
    pub text: Vec<u8>,
}

/// Whether `b` is a blank that separates the fields of a line.
pub open spec fn is_blank(b: u8) -> bool {
    b == 32u8 || b == 9u8
}

/// Whether `b` is an ASCII decimal digit.
pub open spec fn is_digit(b: u8) -> bool {
    48u8 <= b <= 57u8
}

/// The first index at or after `from` that holds `b`, or the length of `s`.
pub open spec fn index_of(s: Seq<u8>, from: nat, b: u8) -> nat
    decreases s.len() - from,
{
    if from >= s.len() {
        s.len()
    } else if s[from as int] == b {
        from
    } else {
        index_of(s, from + 1, b)
    }
}

/// The first index at or after `from` that holds a blank, or the length of `s`.
pub open spec fn next_blank(s: Seq<u8>, from: nat) -> nat
    decreases s.len() - from,
{
    if from >= s.len() {
        s.len()
    } else if is_blank(s[from as int]) {
        from
    } else {
        next_blank(s, from + 1)
    }
}

/// The first index at or after `from` that holds no blank, or the length of `s`.
pub open spec fn skip_blanks(s: Seq<u8>, from: nat) -> nat
    decreases s.len() - from,
{
    if from >= s.len() {
        s.len()
    } else if !is_blank(s[from as int]) {
        from
    } else {
        skip_blanks(s, from + 1)
    }
}

/// The value of a string of decimal digits.
pub open spec fn digits_value(s: Seq<u8>) -> nat
    decreases s.len(),
{
    if s.len() == 0 {
        0
    } else {
        digits_value(s.drop_last()) * 10 + (s.last() - 48) as nat
    }
}

/// Whether every byte of `s` is a decimal digit.
pub open spec fn all_digits(s: Seq<u8>) -> bool {
    forall|i: int| 0 <= i < s.len() ==> is_digit(#[trigger] s[i])
}

fn find_byte(s: &[u8], from: usize, b: u8) -> (r: usize)
    requires
        from <= s@.len(),
    ensures
        r as nat == index_of(s@, from as nat, b),
        from <= r <= s@.len(),
{
    let mut i = from;
    while i < s.len() && s[i] != b
        invariant
            from <= i <= s@.len(),
            index_of(s@, i as nat, b) == index_of(s@, from as nat, b),
        decreases s@.len() - i,
    {
        i = i + 1;
    }
    i
}

fn find_blank(s: &[u8], from: usize) -> (r: usize)
    requires
        from <= s@.len(),
    ensures
        r as nat == next_blank(s@, from as nat),
        from <= r <= s@.len(),
{
    let mut i = from;
    while i < s.len() && !(s[i] == 32u8 || s[i] == 9u8)
        invariant
            from <= i <= s@.len(),
            next_blank(s@, i as nat) == next_blank(s@, from as nat),
        decreases s@.len() - i,
    {
        i = i + 1;
    }
    i
}

fn skip_blank(s: &[u8], from: usize) -> (r: usize)
    requires
        from <= s@.len(),
    ensures
        r as nat == skip_blanks(s@, from as nat),
        from <= r <= s@.len(),
{
    let mut i = from;
    while i < s.len() && (s[i] == 32u8 || s[i] == 9u8)
        invariant
            from <= i <= s@.len(),
            skip_blanks(s@, i as nat) == skip_blanks(s@, from as nat),
        decreases s@.len() - i,
    {
        i = i + 1;
    }
    i
}

proof fn lemma_digits_value_grows(s: Seq<u8>, i: int, j: int)
    requires
        0 <= i <= j <= s.len(),
        all_digits(s),
    ensures
        digits_value(s.subrange(0, i)) <= digits_value(s.subrange(0, j)),
    decreases j - i,
{
    if i < j {
        lemma_digits_value_grows(s, i, j - 1);
        assert(s.subrange(0, j).drop_last() =~= s.subrange(0, j - 1));
    }
}

/// The value of the digits of `s`, if they are all digits, there is one at least, and the
/// value is below `bound`.
fn bounded_digits(s: &[u8], bound: u64) -> (r: Option<u64>)
    ensures
        r is Some <==> s@.len() > 0 && all_digits(s@) && digits_value(s@) < bound,
        r matches Some(v) ==> v as nat == digits_value(s@),
{
    if s.len() == 0 || bound == 0 {
        return None;
    }
    let mut v: u64 = 0;
    let mut i: usize = 0;
    while i < s.len()
        invariant
            i <= s@.len(),
            all_digits(s@.subrange(0, i as int)),
            v as nat == digits_value(s@.subrange(0, i as int)),
            v < bound,
        decreases s@.len() - i,
    {
        let b = s[i];
        if !(48u8 <= b && b <= 57u8) {
            assert(!is_digit(s@[i as int]));
            return None;
        }
        proof {
            assert(s@.subrange(0, i as int + 1).drop_last() =~= s@.subrange(0, i as int));
            assert(all_digits(s@.subrange(0, i as int + 1)));
        }
        let w = v as u128 * 10 + (b - 48u8) as u128;
        if w >= bound as u128 {
            proof {
                if all_digits(s@) {
                    lemma_digits_value_grows(s@, i as int + 1, s@.len() as int);
                    assert(s@.subrange(0, s@.len() as int) =~= s@);
                }
            }
            return None;
        }
        v = w as u64;
        i = i + 1;
    }
    assert(s@.subrange(0, s@.len() as int) =~= s@);
    Some(v)
}

/// Relies on `std::str::from_utf8`: it succeeds exactly on valid UTF-8, and then the text
/// holds the characters that the bytes encode.
#[verifier::external_body]
fn utf8_text(b: &[u8]) -> (r: Option<String>)
    ensures
        r is Some <==> valid_utf8(b@),
        r matches Some(s) ==> s@ == decode_utf8(b@),
{
    std::str::from_utf8(b).ok().map(|s| s.to_string())
}

/// Whole popularity values must stay below this bound, so that millionths fit in an `i64`.
pub const MAX_WHOLE_POPULARITY: u64 = 9000000000000;

/// The first fractional digits of a popularity that are kept: six at most.
pub open spec fn kept_digits(frac: Seq<u8>) -> Seq<u8> {
    if frac.len() <= 6 { frac } else { frac.subrange(0, 6) }
}

/// Whether a popularity with fractional digits `frac` rounds up: its seventh fractional
/// digit is 5 or more.
pub open spec fn rounds_up(frac: Seq<u8>) -> bool {
    frac.len() > 6 && frac[6] >= 53u8
}

/// The popularity, in millionths, that a field of the table states: an optional sign, the
/// whole part, and optionally a point followed by at least one fractional digit; digits
/// beyond the sixth round the value half up to the nearest millionth.
pub open spec fn popularity_value(p: Seq<u8>) -> Option<int> {
    let signed = p.len() > 0 && (p[0] == 45u8 || p[0] == 43u8);
    let start: nat = if signed { 1 } else { 0 };
    let dot = index_of(p, start, 46u8);
    let whole = p.subrange(start as int, dot as int);
    let frac = if dot < p.len() { p.subrange(dot as int + 1, p.len() as int) } else { Seq::empty() };
    if whole.len() > 0 && all_digits(whole) && digits_value(whole) < MAX_WHOLE_POPULARITY
        && all_digits(frac) && (dot < p.len() ==> 1 <= frac.len()) {
        let kept = kept_digits(frac);
        let m: int = digits_value(whole) * 1000000 + digits_value(kept) * pow10(
            (6 - kept.len()) as nat,
        ) + if rounds_up(frac) { 1int } else { 0int };
        Some(if signed && p[0] == 45u8 { -m } else { m })
    } else {
        None
    }
}

fn digits_only(s: &[u8]) -> (r: bool)
    ensures
        r == all_digits(s@),
{
    let mut i: usize = 0;
    while i < s.len()
        invariant
            i <= s@.len(),
            forall|j: int| 0 <= j < i ==> is_digit(#[trigger] s@[j]),
        decreases s@.len() - i,
    {
        if !(48u8 <= s[i] && s[i] <= 57u8) {
            assert(!is_digit(s@[i as int]));
            return false;
        }
        i = i + 1;
    }
    true
}

proof fn lemma_digits_value_bound(s: Seq<u8>)
    requires
        all_digits(s),
    ensures
        digits_value(s) < pow10(s.len()),
    decreases s.len(),
{
    if s.len() > 0 {
        let t = s.drop_last();
        assert(all_digits(t)) by {
            assert forall|i: int| 0 <= i < t.len() implies is_digit(#[trigger] t[i]) by {
                assert(t[i] == s[i]);
            }
        }
        lemma_digits_value_bound(t);
        assert(is_digit(s[s.len() - 1]));
        let v = digits_value(t);
        let q = pow10((s.len() - 1) as nat);
        assert(pow10(s.len()) == 10 * q);
        assert(v * 10 + (s.last() - 48) < 10 * q) by (nonlinear_arith)
            requires v < q, s.last() - 48 <= 9;
    }
}

fn parse_popularity(p: &[u8]) -> (r: Option<i64>)
    ensures
        r is Some <==> popularity_value(p@) is Some,
        r matches Some(v) ==> popularity_value(p@) == Some(v as int),
{
    let signed = p.len() > 0 && (p[0] == 45u8 || p[0] == 43u8);
    let start: usize = if signed { 1 } else { 0 };
    let dot = find_byte(p, start, 46u8);
    let whole = slice_subrange(p, start, dot);
    let ghost frac_view = if dot < p@.len() {
        p@.subrange(dot as int + 1, p@.len() as int)
    } else {
        Seq::empty()
    };
    let w = match bounded_digits(whole, MAX_WHOLE_POPULARITY) {
        Some(w) => w,
        None => { return None; },
    };
    let mut kept_len: usize = 0;
    let mut f: u64 = 0;
    let mut round: u64 = 0;
    if dot < p.len() {
        let frac = slice_subrange(p, dot + 1, p.len());
        if frac.len() < 1 || !digits_only(frac) {
            return None;
        }
        kept_len = if frac.len() <= 6 { frac.len() } else { 6 };
        let kept = slice_subrange(frac, 0, kept_len);
        proof {
            assert(kept@ == kept_digits(frac@)) by {
                if frac@.len() <= 6 {
                    assert(kept@ =~= frac@);
                }
            }
            assert(all_digits(kept@)) by {
                assert forall|i: int| 0 <= i < kept@.len() implies is_digit(#[trigger] kept@[i]) by {
                    assert(kept@[i] == frac@[i]);
                }
            }
            lemma_digits_value_bound(kept@);
            reveal_with_fuel(pow10, 7);
            lemma_pow10_le(kept@.len(), 6);
        }
        f = match bounded_digits(kept, 1000000) {
            Some(f) => f,
            None => { return None; },
        };
        if frac.len() > 6 && frac[6] >= 53u8 {
            round = 1;
        }
    }
    assert(kept_len == kept_digits(frac_view).len());
    assert(f == digits_value(kept_digits(frac_view))) by {
        if dot >= p@.len() {
            assert(kept_digits(frac_view).len() == 0);
        }
    };
    assert(round == if rounds_up(frac_view) { 1int } else { 0int });
    let mut scale: u64 = 1;
    let mut k: usize = kept_len;
    while k < 6
        invariant
            kept_len <= k <= 6,
            scale == pow10((k - kept_len) as nat),
            scale <= 1000000,
        decreases 6 - k,
    {
        proof {
            reveal_with_fuel(pow10, 7);
            assert(pow10((k + 1 - kept_len) as nat) == 10 * pow10((k - kept_len) as nat));
            assert(pow10((k - kept_len) as nat) <= 100000) by {
                lemma_pow10_le((k - kept_len) as nat, 5);
            }
        }
        scale = scale * 10;
        k = k + 1;
    }
    assert(f * scale <= 1000000000000) by (nonlinear_arith)
        requires f < 1000000, scale <= 1000000;
    assert(w * 1000000 < 9000000000000000000) by (nonlinear_arith)
        requires w < 9000000000000;
    let m = (w * 1000000 + f * scale + round) as i64;
    if signed && p[0] == 45u8 {
        Some(-m)
    } else {
        Some(m)
    }
}

/// The record that one line states, if it has the expected shape:
/// `<id><blanks><popularity><blanks><term>[<reading>]`, anything after `]` ignored.
pub open spec fn line_record(l: Seq<u8>) -> Option<FrequencyView> {
    let a = next_blank(l, 0);
    let b = skip_blanks(l, a);
    let c = next_blank(l, b);
    let d = skip_blanks(l, c);
    let e = index_of(l, d, 91u8);
    let g = index_of(l, e + 1, 93u8);
    let id = l.subrange(0, a as int);
    let pop = l.subrange(b as int, c as int);
    let term = l.subrange(d as int, e as int);
    let reading = l.subrange(e as int + 1, g as int);
    if e < l.len() && g < l.len() && id.len() > 0 && all_digits(id) && digits_value(id)
        <= u32::MAX && popularity_value(pop) is Some && valid_utf8(term) && valid_utf8(reading) {
        Some(
            FrequencyView {
                ent_seq: digits_value(id),
                popularity: popularity_value(pop).unwrap(),
                term: decode_utf8(term),
                reading: decode_utf8(reading),
            },
        )
    } else {
        None
    }
}

/// The records of the lines from byte `pos` on, the first of which is line `line`; or the
/// number and bytes of the first line without the expected shape. Every line ends with a
/// line feed.
pub open spec fn records_from(s: Seq<u8>, pos: nat, line: nat) -> Result<
    Seq<FrequencyView>,
    (nat, Seq<u8>),
>
    decreases s.len() - pos
    via records_from_decreases
{
    if pos >= s.len() {
        Ok(Seq::empty())
    } else {
        let e = index_of(s, pos, 10u8);
        let l = s.subrange(pos as int, e as int);
        if e >= s.len() {
            Err((line, l))
        } else {
            match line_record(l) {
                None => Err((line, l)),
                Some(r) => match records_from(s, e + 1, line + 1) {
                    Ok(rs) => Ok(seq![r] + rs),
                    Err(x) => Err(x),
                },
            }
        }
    }
}

proof fn lemma_index_of_bounds(s: Seq<u8>, from: nat, b: u8)
    ensures
        from <= s.len() ==> from <= index_of(s, from, b) <= s.len(),
        from > s.len() ==> index_of(s, from, b) == s.len(),
    decreases s.len() - from,
{
    if from < s.len() && s[from as int] != b {
        lemma_index_of_bounds(s, from + 1, b);
    }
}

#[via_fn]
proof fn records_from_decreases(s: Seq<u8>, pos: nat, line: nat) {
    lemma_index_of_bounds(s, pos, 10u8);
}

/// The records of a whole frequency table.
pub open spec fn table_records(s: Seq<u8>) -> Result<Seq<FrequencyView>, (nat, Seq<u8>)> {
    records_from(s, 0, 1)
}

/// `done` followed by what `rest` holds.
pub open spec fn after(
    done: Seq<FrequencyView>,
    rest: Result<Seq<FrequencyView>, (nat, Seq<u8>)>,
) -> Result<Seq<FrequencyView>, (nat, Seq<u8>)> {
    match rest {
        Ok(rs) => Ok(done + rs),
        Err(x) => Err(x),
    }
}

fn parse_line(l: &[u8]) -> (r: Option<WordFrequency>)
    ensures
        r is Some <==> line_record(l@) is Some,
        r matches Some(w) ==> line_record(l@) == Some(w@),
{
    let a = find_blank(l, 0);
    let b = skip_blank(l, a);
    let c = find_blank(l, b);
    let d = skip_blank(l, c);
    let e = find_byte(l, d, 91u8);
    if e >= l.len() {
        return None;
    }
    let g = find_byte(l, e + 1, 93u8);
    if g >= l.len() {
        return None;
    }
    let ent_seq = match bounded_digits(slice_subrange(l, 0, a), 4294967296) {
        Some(v) => v as u32,
        None => { return None; }
    };
    let popularity = match parse_popularity(slice_subrange(l, b, c)) {
        Some(p) => p,
        None => { return None; }
    };
    let term = match utf8_text(slice_subrange(l, d, e)) {
        Some(t) => t,
        None => { return None; }
    };
    let reading = match utf8_text(slice_subrange(l, e + 1, g)) {
        Some(t) => t,
        None => { return None; }
    };
    Some(WordFrequency { ent_seq, popularity, term, reading })
}

/// Reads every line of a frequency table, or reports the first line that does not have
/// the expected shape.
pub fn parse_frequency_input(input: &[u8]) -> (r: Result<Vec<WordFrequency>, ParseError>)
    ensures
        match (r, table_records(input@)) {
            (Ok(v), Ok(w)) => frequency_views(v@) == w,
            (Err(e), Err((n, t))) => e.line as nat == n && e.text@ == t,
            _ => false,
        },
{
    let mut records: Vec<WordFrequency> = Vec::new();
    let mut pos: usize = 0;
    let mut line: usize = 1;
    while pos < input.len()
        invariant
            pos <= input@.len(),
            1 <= line <= pos + 1,
            table_records(input@) == after(
                frequency_views(records@),
                records_from(input@, pos as nat, line as nat),
            ),
        decreases input@.len() - pos,
    {
        let e = find_byte(input, pos, 10u8);
        let l = slice_subrange(input, pos, e);
        if e >= input.len() {
            return Err(ParseError { line, text: slice_to_vec(l) });
        }
        match parse_line(l) {
            None => {
                return Err(ParseError { line, text: slice_to_vec(l) });
            },
            Some(w) => {
                let ghost before = frequency_views(records@);
                records.push(w);
                proof {
                    assert(frequency_views(records@) =~= before.push(w@));
                    match records_from(input@, e as nat + 1, line as nat + 1) {
                        Ok(rs) => {
                            assert(before + (seq![w@] + rs) =~= before.push(w@) + rs);
                        },
                        Err(x) => {},
                    }
                }
            },
        }
        pos = e + 1;
        line = line + 1;
    }
    proof {
        assert(frequency_views(records@) + Seq::<FrequencyView>::empty() =~= frequency_views(records@));
    }
    Ok(records)
}

proof fn lemma_pow10_le(a: nat, b: nat)
    requires
        a <= b,
    ensures
        pow10(a) <= pow10(b),
    decreases b,
{
    if a < b {
        lemma_pow10_le(a, (b - 1) as nat);
        assert(pow10(b) == 10 * pow10((b - 1) as nat));
    }
}

} // verus!
