//! Term records as JSON text, and their grouping into bank files.
use vstd::prelude::*;

use crate::text::{dec, dec_padded, join, push_dec, push_dec_padded};
use vstd::arithmetic::div_mod::lemma_fundamental_div_mod_converse;
use crate::stats::{base_popularity, get_popularity, FrequencyTable};
use crate::yomichan::{
    class_text, entry_class, expansion, gloss_text, lemma_expansion_count, row_count,
    row_views, same_text, Definition, DefinitionView, TermRow, POINT,
};

verus! {

/// How many records one bank file holds.
pub const MAX_TERM_PER_BANK: u64 = 10000;

/// The fractional digits of `f / 10^w`, without trailing zeros.
pub open spec fn frac_text(f: nat, w: nat) -> Seq<char>
    decreases w,
{
    if w > 0 && f > 0 && f % 10 == 0 {
        frac_text(f / 10, (w - 1) as nat)
    } else {
        dec_padded(f, w)
    }
}

/// The decimal text of a popularity of `p` millionths: integer part, then the fractional
/// part without trailing zeros, if it is not zero.
pub open spec fn popularity_text(p: int) -> Seq<char> {
    let m = if p < 0 { -p } else { p };
    let whole = (m / 1000000) as nat;
    let frac = (m % 1000000) as nat;
    (if p < 0 { "-"@ } else { Seq::empty() }) + dec(whole) + (if frac == 0 {
        Seq::empty()
    } else {
        "."@ + frac_text(frac, 6)
    })
}

/// Appends the decimal text of a popularity of `p` millionths.
pub fn push_popularity(out: &mut String, p: i128)
    ensures
        final(out)@ == old(out)@ + popularity_text(p as int),
{
    let ghost start = out@;
    let m: u128 = if p < 0 {
        out.append("-");
        ((-(p + 1)) as u128) + 1
    } else {
        p as u128
    };
    assert(m as int == if p < 0 { -(p as int) } else { p as int });
    push_dec(out, m / POINT as u128);
    let frac = m % POINT as u128;
    if frac != 0 {
        out.append(".");
        let mut f = frac;
        let mut w: usize = 6;
        while w > 0 && f % 10 == 0
            invariant
                f > 0,
                w <= 6,
                frac_text(f as nat, w as nat) == frac_text(frac as nat, 6),
            decreases w,
        {
            f = f / 10;
            w = w - 1;
        }
        push_dec_padded(out, f, w);
    }
    assert(out@ =~= start + popularity_text(p as int));
}

/// The JSON text of one term record with record number `num`.
pub open spec fn record_text(
    term: Seq<char>,
    reading: Seq<char>,
    identifier: Seq<char>,
    popularity: int,
    gloss: Seq<char>,
    num: nat,
) -> Seq<char> {
    "[\""@ + term + "\",\""@ + reading + "\",\"\",\""@ + identifier + "\","@ + popularity_text(
        popularity,
    ) + ",[\""@ + gloss + "\"],"@ + dec(num) + ",\"\"]"@
}

/// The JSON text of a row with record number `num`.
pub open spec fn row_text(row: TermRow, num: nat) -> Seq<char> {
    record_text(row.term@, row.reading@, row.identifier@, row.popularity as int, row.gloss@, num)
}

/// Writes the JSON text of a row with record number `num`.
pub fn serialize_row(row: &TermRow, num: u64) -> (r: String)
    ensures
        r@ == row_text(*row, num as nat),
{
    let mut r = String::from_str("[\"");
    r.append(row.term.as_str());
    r.append("\",\"");
    r.append(row.reading.as_str());
    r.append("\",\"\",\"");
    r.append(row.identifier.as_str());
    r.append("\",");
    push_popularity(&mut r, row.popularity);
    r.append(",[\"");
    r.append(row.gloss.as_str());
    r.append("\"],");
    push_dec(&mut r, num as u128);
    r.append(",\"\"]");
    r
}

/// The 1-based number of the bank that record `num` goes to.
pub open spec fn bank_of(num: nat) -> nat {
    ((num - 1) / (MAX_TERM_PER_BANK as int) + 1) as nat
}

/// Whether record `num` opens its bank.
pub open spec fn opens_bank(num: nat) -> bool {
    (num - 1) % (MAX_TERM_PER_BANK as int) == 0
}

/// Whether record `num` fills its bank.
pub open spec fn fills_bank(num: nat) -> bool {
    (num as int) % (MAX_TERM_PER_BANK as int) == 0
}

/// A record's text framed for its place in the bank: `[` before the first record, `,` and
/// a line break before the others, `]` after the one that fills the bank.
pub open spec fn framed(rec: Seq<char>, num: nat) -> Seq<char> {
    (if opens_bank(num) { "["@ } else { ",\n"@ }) + rec + (if fills_bank(num) {
        "]"@
    } else {
        Seq::empty()
    })
}

/// The framed texts of the `n` records numbered from `first` on, in order; the record
/// numbered `k` has the text `recs[k - 1]`.
pub open spec fn bank_run(recs: Seq<Seq<char>>, first: nat, n: nat) -> Seq<char>
    decreases n,
{
    if n == 0 {
        Seq::empty()
    } else {
        bank_run(recs, first, (n - 1) as nat) + framed(
            recs[first + n - 2],
            (first + n - 1) as nat,
        )
    }
}

pub(crate) proof fn lemma_bank_position(b: nat, j: nat)
    requires
        b >= 1,
        j <= MAX_TERM_PER_BANK,
    ensures
        j < MAX_TERM_PER_BANK ==> ((b - 1) * MAX_TERM_PER_BANK + j) % (MAX_TERM_PER_BANK as int)
            == j,
        j == MAX_TERM_PER_BANK ==> ((b - 1) * MAX_TERM_PER_BANK + j) % (MAX_TERM_PER_BANK as int)
            == 0,
        j < MAX_TERM_PER_BANK ==> ((b - 1) * MAX_TERM_PER_BANK + j) / (MAX_TERM_PER_BANK as int)
            == b - 1,
{
    let c = MAX_TERM_PER_BANK as int;
    if j < c {
        lemma_fundamental_div_mod_converse((b - 1) * c + j, c, b - 1, j as int);
    } else {
        assert((b - 1) * c + j == b * c) by (nonlinear_arith)
            requires j == c, b >= 1;
        lemma_fundamental_div_mod_converse((b - 1) * c + j, c, b as int, 0);
    }
}

proof fn lemma_bank_run(recs: Seq<Seq<char>>, b: nat, n: nat)
    requires
        b >= 1,
        1 <= n <= MAX_TERM_PER_BANK,
        (b - 1) * MAX_TERM_PER_BANK + n <= recs.len(),
    ensures
        ({
            let first = ((b - 1) * MAX_TERM_PER_BANK + 1) as nat;
            bank_run(recs, first, n) == "["@ + join(
                recs.subrange(first - 1, first - 1 + n),
                ",\n"@,
            ) + if n == MAX_TERM_PER_BANK {
                "]"@
            } else {
                Seq::empty()
            }
        }),
    decreases n,
{
    let first = ((b - 1) * MAX_TERM_PER_BANK + 1) as nat;
    let sub = recs.subrange(first - 1, first - 1 + n);
    lemma_bank_position(b, (n - 1) as nat);
    lemma_bank_position(b, n);
    if n == 1 {
        assert(bank_run(recs, first, 0) == Seq::<char>::empty());
        assert(!fills_bank(first));
        assert(opens_bank(first));
        assert(bank_run(recs, first, 1) =~= "["@ + join(sub, ",\n"@));
    } else {
        lemma_bank_run(recs, b, (n - 1) as nat);
        assert(sub.drop_last() =~= recs.subrange(first - 1, first - 1 + n - 1));
        assert(sub.last() == recs[first + n - 2]);
        assert(!opens_bank((first + n - 1) as nat));
        assert(fills_bank((first + n - 1) as nat) <==> n == MAX_TERM_PER_BANK);
        assert(bank_run(recs, first, n) =~= "["@ + join(sub, ",\n"@) + if n == MAX_TERM_PER_BANK {
            "]"@
        } else {
            Seq::empty()
        });
    }
}

/// Each bank file is a single JSON array. Of the records numbered `1..=total`, bank `b`
/// receives exactly those numbered `(b - 1) * 10000 + 1` to `b * 10000`, the final bank
/// fewer; their framed texts, followed by the closing bracket that `finish` gives where the
/// bank is not full, are the records between `[` and `]`, separated by a comma and a line
/// break.
pub proof fn lemma_bank_is_array(recs: Seq<Seq<char>>, total: nat, b: nat)
    requires
        total <= recs.len(),
        b >= 1,
        (b - 1) * MAX_TERM_PER_BANK < total,
    ensures
        ({
            let first = ((b - 1) * MAX_TERM_PER_BANK + 1) as nat;
            let n: nat = if total - (first - 1) < MAX_TERM_PER_BANK {
                (total - (first - 1)) as nat
            } else {
                MAX_TERM_PER_BANK as nat
            };
            &&& forall|num: nat|
                1 <= num <= total ==> (#[trigger] bank_of(num) == b <==> first <= num < first + n)
            &&& bank_run(recs, first, n) + (if fills_bank((first + n - 1) as nat) {
                Seq::empty()
            } else {
                "]"@
            }) == "["@ + join(recs.subrange(first - 1, first - 1 + n), ",\n"@) + "]"@
        }),
{
    let c = MAX_TERM_PER_BANK as int;
    let first = ((b - 1) * MAX_TERM_PER_BANK + 1) as nat;
    let n: nat = if total - (first - 1) < MAX_TERM_PER_BANK {
        (total - (first - 1)) as nat
    } else {
        MAX_TERM_PER_BANK as nat
    };
    lemma_bank_run(recs, b, n);
    lemma_bank_position(b, n);
    assert forall|num: nat| 1 <= num <= total implies (#[trigger] bank_of(num) == b <==> first
        <= num < first + n) by {
        let q = (num - 1) / c;
        let r = (num - 1) % c;
        assert(num - 1 == q * c + r && 0 <= r < c) by {
            vstd::arithmetic::div_mod::lemma_fundamental_div_mod(num - 1, c);
        }
        if q + 1 == b {
            assert(first <= num) by (nonlinear_arith)
                requires num - 1 == q * c + r, r >= 0, q + 1 == b, first == (b - 1) * c + 1;
            assert(num < first + n) by (nonlinear_arith)
                requires num - 1 == q * c + r, r < c, q + 1 == b, first == (b - 1) * c + 1,
                    num <= total, n == c || n == total - (first - 1);
        } else if q + 1 < b {
            assert(num < first) by (nonlinear_arith)
                requires num - 1 == q * c + r, r < c, q + 1 < b, first == (b - 1) * c + 1, c > 0;
        } else {
            assert(num >= first + c) by (nonlinear_arith)
                requires num - 1 == q * c + r, r >= 0, q + 1 > b, first == (b - 1) * c + 1, c > 0;
        }
    }
    if n == MAX_TERM_PER_BANK {
        assert(fills_bank((first + n - 1) as nat));
    } else {
        assert(!fills_bank((first + n - 1) as nat));
    }
}

/// Text to append to one bank file.
#[derive(Debug)]
pub struct BankText {
    /// The 1-based number of the bank file.
    pub bank: u64,
    /// The text to append to it.
    pub text: String,
}

/// Numbers records and frames them into bank files.
#[derive(Debug)]
pub struct BankWriter {
    /// How many records were written so far.
    pub written: u64,
}

impl BankWriter {
    /// A writer that has written nothing.
    pub fn new() -> (r: BankWriter)
        ensures
            r.written == 0,
    {
        BankWriter { written: 0 }
    }

    /// Gives `row` the next record number and returns its framed text and bank.
    pub fn write(&mut self, row: &TermRow) -> (r: BankText)
        requires
            old(self).written < u64::MAX,
        ensures
            final(self).written == old(self).written + 1,
            r.bank as nat == bank_of(final(self).written as nat),
            r.text@ == framed(row_text(*row, final(self).written as nat), final(self).written as nat),
    {
        self.written = self.written + 1;
        let num = self.written;
        let rec = serialize_row(row, num);
        let mut text = if (num - 1) % MAX_TERM_PER_BANK == 0 {
            String::from_str("[")
        } else {
            String::from_str(",\n")
        };
        text.append(rec.as_str());
        if num % MAX_TERM_PER_BANK == 0 {
            text.append("]");
        }
        BankText { bank: (num - 1) / MAX_TERM_PER_BANK + 1, text }
    }

    /// The text that closes the last bank, unless it is already closed or nothing was written.
    pub fn finish(&self) -> (r: Option<BankText>)
        ensures
            r is Some <==> self.written > 0 && !fills_bank(self.written as nat),
            r matches Some(b) ==> b.bank as nat == bank_of(self.written as nat) && b.text@ == "]"@,
    {
        if self.written > 0 && self.written % MAX_TERM_PER_BANK != 0 {
            Some(BankText { bank: (self.written - 1) / MAX_TERM_PER_BANK + 1, text: String::from_str("]") })
        } else {
            None
        }
    }
}

/// The JSON text of row `k` of entry `d`, numbered `num`.
pub open spec fn entry_record(d: DefinitionView, base: int, k: int, num: nat) -> Seq<char> {
    let row = expansion(d, base)[k];
    record_text(
        row.term,
        row.reading,
        class_text(entry_class(d.senses)),
        row.popularity,
        gloss_text(d),
        num,
    )
}

impl Definition {
    /// How many term records the entry yields.
    pub fn record_count(&self) -> (r: u128)
        ensures
            r == row_count(self@),
    {
        let t = self.term.len() as u128;
        let r = self.reading.len() as u128;
        let ghost big: int = 0xffff_ffff_ffff_ffffint;
        assert(t <= big && r <= big);
        assert(t * r <= big * big) by (nonlinear_arith)
            requires t <= big, r <= big, t >= 0, r >= 0;
        assert(big * big + big <= u128::MAX) by (nonlinear_arith)
            requires big == 0xffff_ffff_ffff_ffffint;
        let canonical = if t == 0 { r } else { t * r };
        if self.uk {
            canonical + r
        } else {
            canonical
        }
    }

    /// Expands the entry with its base popularity from `table`, numbers its records after
    /// those that `writer` has written, and frames each for its bank.
    pub fn serialize(&self, writer: &mut BankWriter, table: &FrequencyTable) -> (out: Vec<BankText>)
        requires
            table.wf(),
            old(writer).written + row_count(self@) <= u64::MAX,
        ensures
            final(writer).written == old(writer).written + row_count(self@),
            out@.len() == row_count(self@),
            forall|k: int|
                0 <= k < out@.len() ==> {
                    let num = (old(writer).written + k + 1) as nat;
                    &&& (#[trigger] out@[k]).bank as nat == bank_of(num)
                    &&& out@[k].text@ == framed(
                        entry_record(self@, base_popularity(*table, self@.sequence_number as nat), k, num),
                        num,
                    )
                },
    {
        let base = get_popularity(self.sequence_number, table);
        let rows = self.expand(base);
        proof {
            lemma_expansion_count(self@, base as int);
            assert(rows@.len() == row_count(self@)) by {
                assert(row_views(rows@).len() == rows@.len());
            }
        }
        let ghost w0 = writer.written;
        let mut out: Vec<BankText> = Vec::new();
        let mut k: usize = 0;
        while k < rows.len()
            invariant
                rows@.len() == row_count(self@),
                row_views(rows@) == expansion(self@, base as int),
                base == base_popularity(*table, self@.sequence_number as nat),
                forall|m: int|
                    0 <= m < rows@.len() ==> same_text(
                        #[trigger] rows@[m],
                        class_text(entry_class(self@.senses)),
                        gloss_text(self@),
                    ),
                w0 + row_count(self@) <= u64::MAX,
                k <= rows@.len(),
                writer.written == w0 + k,
                out@.len() == k,
                forall|m: int|
                    0 <= m < k ==> {
                        let num = (w0 + m + 1) as nat;
                        &&& (#[trigger] out@[m]).bank as nat == bank_of(num)
                        &&& out@[m].text@ == framed(
                            entry_record(self@, base as int, m, num),
                            num,
                        )
                    },
            decreases rows@.len() - k,
        {
            let b = writer.write(&rows[k]);
            proof {
                assert(row_views(rows@)[k as int] == rows@[k as int]@);
                assert(same_text(rows@[k as int], class_text(entry_class(self@.senses)), gloss_text(self@)));
            }
            out.push(b);
            k = k + 1;
        }
        out
    }
}

} // verus!
