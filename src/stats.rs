//! Summary statistics of the frequency table, and popularity lookup.
use vstd::prelude::*;

use crate::word_frequency::{frequency_views, FrequencyView, WordFrequency};
use std::collections::HashMap;

verus! {

/// Why statistics could not be computed.
#[derive(Debug)]
pub enum StatsError {
    /// The table holds no record.
    Empty,
    /// The sums of the table do not fit in 128 bits.
    TooLarge,
}

/// The popularity values of the records.
pub open spec fn popularities(v: Seq<FrequencyView>) -> Seq<int> {
    v.map_values(|w: FrequencyView| w.popularity)
}

/// The sum of `s`.
pub open spec fn sum(s: Seq<int>) -> int
    decreases s.len(),
{
    if s.len() == 0 { 0 } else { sum(s.drop_last()) + s.last() }
}

/// The sum of the squares of `s`.
pub open spec fn sum_sq(s: Seq<int>) -> int
    decreases s.len(),
{
    if s.len() == 0 { 0 } else { sum_sq(s.drop_last()) + s.last() * s.last() }
}

/// The arithmetic mean of `s`, rounded down.
pub open spec fn mean_of(s: Seq<int>) -> int {
    sum(s) / (s.len() as int)
}

/// `n` squared times the population variance of `s`: `n * sum_sq - sum^2`.
pub open spec fn spread(s: Seq<int>) -> int {
    s.len() * sum_sq(s) - sum(s) * sum(s)
}

/// Whether `d` is the population standard deviation of `s`, rounded down: the largest
/// `d` with `(d * n)^2 <= n^2 * variance`.
pub open spec fn is_std_deviation(s: Seq<int>, d: int) -> bool {
    let n = s.len() as int;
    d >= 0 && (d * n) * (d * n) <= spread(s) && spread(s) < ((d + 1) * n) * ((d + 1) * n)
}

/// Whether the sums that the statistics of `s` need fit in 128 bits.
pub open spec fn sums_fit(s: Seq<int>) -> bool {
    s.len() * sum_sq(s) <= u128::MAX
}

proof fn lemma_sum_sq_nonneg(s: Seq<int>)
    ensures
        sum_sq(s) >= 0,
    decreases s.len(),
{
    if s.len() > 0 {
        lemma_sum_sq_nonneg(s.drop_last());
        assert(s.last() * s.last() >= 0) by (nonlinear_arith);
    }
}

proof fn lemma_sum_sq_prefix(s: Seq<int>, i: int)
    requires
        0 <= i <= s.len(),
    ensures
        sum_sq(s.subrange(0, i)) <= sum_sq(s),
    decreases s.len() - i,
{
    if i < s.len() {
        lemma_sum_sq_prefix(s, i + 1);
        let t = s.subrange(0, i + 1);
        assert(t.drop_last() =~= s.subrange(0, i));
        assert(t.last() * t.last() >= 0) by (nonlinear_arith);
    } else {
        assert(s.subrange(0, i) =~= s);
    }
}

proof fn lemma_deviation_sum(s: Seq<int>, y: int)
    ensures
        sum_sq(s) - 2 * y * sum(s) + s.len() * y * y >= 0,
    decreases s.len(),
{
    if s.len() > 0 {
        let t = s.drop_last();
        let x = s.last();
        lemma_deviation_sum(t, y);
        assert(sum_sq(s) - 2 * y * sum(s) + s.len() * y * y == (sum_sq(t) - 2 * y * sum(t) + t.len()
            * y * y) + (x - y) * (x - y)) by (nonlinear_arith)
            requires
                sum_sq(s) == sum_sq(t) + x * x,
                sum(s) == sum(t) + x,
                s.len() == t.len() + 1;
        assert((x - y) * (x - y) >= 0) by (nonlinear_arith);
    }
}

/// The spread of a list is never negative (the Cauchy-Schwarz inequality for sums).
proof fn lemma_spread_nonneg(s: Seq<int>)
    ensures
        spread(s) >= 0,
    decreases s.len(),
{
    if s.len() > 0 {
        let t = s.drop_last();
        let y = s.last();
        lemma_spread_nonneg(t);
        lemma_deviation_sum(t, y);
        assert(spread(s) == spread(t) + (sum_sq(t) - 2 * y * sum(t) + t.len() * y * y))
            by (nonlinear_arith)
            requires
                sum_sq(s) == sum_sq(t) + y * y,
                sum(s) == sum(t) + y,
                s.len() == t.len() + 1,
                spread(s) == s.len() * sum_sq(s) - sum(s) * sum(s),
                spread(t) == t.len() * sum_sq(t) - sum(t) * sum(t);
    }
}

/// The largest `r` with `r * r <= a`.
fn isqrt(a: u128) -> (r: u128)
    ensures
        r * r <= a < (r + 1) * (r + 1),
{
    let mut lo: u128 = 0;
    let mut hi: u128 = 0x1_0000_0000_0000_0000;
    assert(a < hi * hi) by (nonlinear_arith)
        requires hi == 0x1_0000_0000_0000_0000u128, a <= u128::MAX;
    while hi - lo > 1
        invariant
            lo < hi <= 0x1_0000_0000_0000_0000u128,
            lo * lo <= a < hi * hi,
        decreases hi - lo,
    {
        let mid = lo + (hi - lo) / 2;
        assert(mid * mid < 0x1_0000_0000_0000_0000_0000_0000_0000_0000int) by (nonlinear_arith)
            requires mid < 0x1_0000_0000_0000_0000int, mid >= 0;
        if mid * mid <= a {
            lo = mid;
        } else {
            hi = mid;
        }
    }
    assert(hi == lo + 1);
    lo
}

/// The floor of `s / n`.
fn floor_div(s: i128, n: u128) -> (q: i128)
    requires
        n > 0,
        n * i64::MIN <= s <= n * i64::MAX,
    ensures
        q == (s as int) / (n as int),
        i64::MIN <= q <= i64::MAX,
{
    let ghost si = s as int;
    let ghost ni = n as int;
    let q: i128 = if s >= 0 {
        (s as u128 / n) as i128
    } else {
        let m = (-(s + 1)) as u128;
        -((m / n) as i128) - 1
    };
    proof {
        let qq = si / ni;
        let rr = si % ni;
        assert(si == qq * ni + rr && 0 <= rr < ni) by {
            vstd::arithmetic::div_mod::lemma_fundamental_div_mod(si, ni);
        }
        if s >= 0 {
            assert(q == qq);
        } else {
            let m = -(si + 1);
            let mq = m / ni;
            let mr = m % ni;
            assert(m == mq * ni + mr && 0 <= mr < ni) by {
                vstd::arithmetic::div_mod::lemma_fundamental_div_mod(m, ni);
            }
            assert(si == (-mq - 1) * ni + (ni - 1 - mr)) by (nonlinear_arith)
                requires m == mq * ni + mr, m == -(si + 1);
            vstd::arithmetic::div_mod::lemma_fundamental_div_mod_converse(si, ni, -mq - 1, ni - 1 - mr);
        }
        assert(i64::MIN <= qq <= i64::MAX) by (nonlinear_arith)
            requires
                si == qq * ni + rr,
                0 <= rr < ni,
                ni * i64::MIN <= si <= ni * i64::MAX,
                ni > 0;
    }
    q
}

/// The mean of the popularity values, rounded down, and their population standard
/// deviation, rounded down; both undefined for an empty table.
pub fn get_freq_stats(records: &Vec<WordFrequency>) -> (r: Result<(i64, u64), StatsError>)
    ensures
        ({
            let s = popularities(frequency_views(records@));
            match r {
                Ok((m, d)) => s.len() > 0 && sums_fit(s) && m == mean_of(s) && is_std_deviation(
                    s,
                    d as int,
                ),
                Err(StatsError::Empty) => s.len() == 0,
                Err(StatsError::TooLarge) => s.len() > 0 && !sums_fit(s),
            }
        }),
{
    let ghost s = popularities(frequency_views(records@));
    let n = records.len();
    if n == 0 {
        return Err(StatsError::Empty);
    }
    let mut total: i128 = 0;
    let mut squares: u128 = 0;
    let mut i: usize = 0;
    while i < n
        invariant
            n == records@.len(),
            s == popularities(frequency_views(records@)),
            i <= n,
            total == sum(s.subrange(0, i as int)),
            squares == sum_sq(s.subrange(0, i as int)),
            i * i64::MIN <= total <= i * i64::MAX,
            squares <= i * 0x4000_0000_0000_0000_0000_0000_0000_0000int,
        decreases n - i,
    {
        let p = records[i].popularity as i128;
        assert(0 <= p * p <= 0x4000_0000_0000_0000_0000_0000_0000_0000int) by (nonlinear_arith)
            requires i64::MIN <= p <= i64::MAX;
        let sq = (p * p) as u128;
        proof {
            let t = s.subrange(0, i as int + 1);
            assert(t.drop_last() =~= s.subrange(0, i as int));
            assert(t.last() == p);
            assert(p * p <= 0x4000_0000_0000_0000_0000_0000_0000_0000int) by (nonlinear_arith)
                requires i64::MIN <= p <= i64::MAX;
            assert(p * p >= 0) by (nonlinear_arith);
        }
        if squares > u128::MAX - sq {
            proof {
                lemma_sum_sq_prefix(s, i as int + 1);
                assert(s.subrange(0, s.len() as int) =~= s);
                assert(s.len() * sum_sq(s) >= sum_sq(s)) by (nonlinear_arith)
                    requires s.len() >= 1, sum_sq(s) >= 0;
            }
            return Err(StatsError::TooLarge);
        }
        total = total + p;
        squares = squares + sq;
        i = i + 1;
    }
    assert(s.subrange(0, n as int) =~= s);
    let nn = n as u128;
    if squares > u128::MAX / nn {
        proof {
            assert(nn * squares > u128::MAX) by (nonlinear_arith)
                requires squares > u128::MAX / nn, nn > 0;
        }
        return Err(StatsError::TooLarge);
    }
    assert(nn * squares <= u128::MAX) by (nonlinear_arith)
        requires squares <= u128::MAX / nn, nn > 0;
    let nq = nn * squares;
    proof {
        lemma_spread_nonneg(s);
    }
    let mag: u128 = if total >= 0 { total as u128 } else { (-(total + 1)) as u128 + 1 };
    assert(mag * mag == total * total) by (nonlinear_arith)
        requires mag == total || mag == -total;
    let spread_value = nq - mag * mag;
    let root = isqrt(spread_value);
    let d = root / nn;
    proof {
        let a = spread_value as int;
        let ni = nn as int;
        let ri = root as int;
        let di = d as int;
        assert(a == spread(s));
        let rm = ri % ni;
        assert(ri == di * ni + rm && 0 <= rm < ni) by {
            vstd::arithmetic::div_mod::lemma_fundamental_div_mod(ri, ni);
        }
        assert((di * ni) * (di * ni) <= ri * ri) by (nonlinear_arith)
            requires ri == di * ni + rm, 0 <= rm, di >= 0, ni > 0;
        assert(ri + 1 <= (di + 1) * ni) by (nonlinear_arith)
            requires ri == di * ni + rm, rm < ni;
        assert((ri + 1) * (ri + 1) <= ((di + 1) * ni) * ((di + 1) * ni)) by (nonlinear_arith)
            requires ri + 1 <= (di + 1) * ni, ri >= 0;
        assert(a <= ni * (ni * 0x4000_0000_0000_0000_0000_0000_0000_0000int)) by (nonlinear_arith)
            requires
                a <= ni * squares,
                squares <= ni * 0x4000_0000_0000_0000_0000_0000_0000_0000int,
                ni > 0;
        assert(ri <= ni * 0x8000_0000_0000_0000int) by (nonlinear_arith)
            requires
                ri * ri <= a,
                a <= ni * (ni * 0x4000_0000_0000_0000_0000_0000_0000_0000int),
                ni > 0, ri >= 0;
        assert(di <= 0x8000_0000_0000_0000int) by (nonlinear_arith)
            requires ri == di * ni + rm, 0 <= rm, ri <= ni * 0x8000_0000_0000_0000int, ni > 0, di >= 0;
    }
    let m = floor_div(total, nn);
    Ok((m as i64, d as u64))
}

/// The frequency table together with its statistics, computed once.
#[derive(Debug)]
pub struct FrequencyTable {
    /// The records, in file order.
    pub records: Vec<WordFrequency>,
    /// The mean popularity, rounded down.
    pub mean: i64,
    /// The population standard deviation of the popularity, rounded down.
    pub std_deviation: u64,
    /// The popularity of the first record of each sequence id.
    pub first: HashMap<u32, i64>,
}

/// Whether the popularity at `i` is that of the first record with sequence id `id`.
pub open spec fn is_first_with(v: Seq<FrequencyView>, id: nat, i: int) -> bool {
    0 <= i < v.len() && v[i].ent_seq == id && forall|j: int| 0 <= j < i ==> v[j].ent_seq != id
}

/// Whether `m` maps each sequence id of the first `n` records to the popularity of the
/// first record with that id, and holds no other id.
pub open spec fn indexes_first(recs: Seq<WordFrequency>, n: int, m: Map<u32, i64>) -> bool {
    &&& forall|id: u32|
        #[trigger] m.contains_key(id) <==> exists|j: int| 0 <= j < n && recs[j].ent_seq == id
    &&& forall|id: u32|
        #[trigger] m.contains_key(id) ==> exists|j: int|
            is_first_with(frequency_views(recs), id as nat, j) && recs[j].popularity == m[id]
}

fn first_popularities(records: &Vec<WordFrequency>) -> (m: HashMap<u32, i64>)
    ensures
        indexes_first(records@, records@.len() as int, m@),
{
    broadcast use vstd::std_specs::hash::group_hash_axioms;
    let ghost v = frequency_views(records@);
    let mut m: HashMap<u32, i64> = HashMap::new();
    let mut i: usize = 0;
    while i < records.len()
        invariant
            v == frequency_views(records@),
            i <= records@.len(),
            indexes_first(records@, i as int, m@),
        decreases records@.len() - i,
    {
        let id = records[i].ent_seq;
        if !m.contains_key(&id) {
            proof {
                assert forall|j: int| 0 <= j < i implies v[j].ent_seq != id as nat by {
                    if v[j].ent_seq == id as nat {
                        assert(records@[j].ent_seq == id);
                        assert(m@.contains_key(id));
                    }
                }
                assert(is_first_with(v, id as nat, i as int));
            }
            m.insert(id, records[i].popularity);
        }
        proof {
            assert forall|k: u32| #[trigger] m@.contains_key(k) <==> exists|j: int|
                0 <= j < i + 1 && records@[j].ent_seq == k by {
                if k == id {
                    assert(records@[i as int].ent_seq == k);
                }
                if exists|j: int| 0 <= j < i + 1 && records@[j].ent_seq == k {
                    let j = choose|j: int| 0 <= j < i + 1 && records@[j].ent_seq == k;
                    if j < i {
                        assert(exists|j: int| 0 <= j < i && records@[j].ent_seq == k);
                    }
                }
            }
        }
        i = i + 1;
    }
    m
}

impl FrequencyTable {
    /// Whether the statistics and the index are those of the records.
    pub open spec fn wf(&self) -> bool {
        let s = popularities(frequency_views(self.records@));
        &&& s.len() > 0
        &&& sums_fit(s)
        &&& self.mean == mean_of(s)
        &&& is_std_deviation(s, self.std_deviation as int)
        &&& indexes_first(self.records@, self.records@.len() as int, self.first@)
    }

    /// The popularity given to entries that the table does not list: one standard
    /// deviation below the mean.
    pub open spec fn fallback(&self) -> int {
        self.mean - self.std_deviation
    }

    /// Builds the table and its statistics; fails as `get_freq_stats` does.
    pub fn new(records: Vec<WordFrequency>) -> (r: Result<FrequencyTable, StatsError>)
        ensures
            ({
                let s = popularities(frequency_views(records@));
                match r {
                    Ok(t) => t.records@ == records@ && t.wf(),
                    Err(StatsError::Empty) => s.len() == 0,
                    Err(StatsError::TooLarge) => s.len() > 0 && !sums_fit(s),
                }
            }),
    {
        match get_freq_stats(&records) {
            Ok((mean, std_deviation)) => {
                let first = first_popularities(&records);
                Ok(FrequencyTable { records, mean, std_deviation, first })
            },
            Err(e) => Err(e),
        }
    }

    /// The popularity of the first record with sequence id `ent_seq`, if there is one.
    pub fn lookup(&self, ent_seq: u32) -> (r: Option<i64>)
        requires
            self.wf(),
        ensures
            r is None <==> forall|i: int|
                0 <= i < self.records@.len() ==> #[trigger] self.records@[i].ent_seq != ent_seq,
            r matches Some(p) ==> exists|i: int|
                is_first_with(frequency_views(self.records@), ent_seq as nat, i)
                    && #[trigger] self.records@[i].popularity == p,
    {
        broadcast use vstd::std_specs::hash::group_hash_axioms;
        match self.first.get(&ent_seq) {
            Some(p) => Some(*p),
            None => {
                proof {
                    assert forall|i: int| 0 <= i < self.records@.len() implies
                        #[trigger] self.records@[i].ent_seq != ent_seq by {
                        if self.records@[i].ent_seq == ent_seq {
                            assert(self.first@.contains_key(ent_seq));
                        }
                    }
                }
                None
            },
        }
    }
}

/// The base popularity of the entry with sequence id `id`: that of the first record with
/// that id, or the table's fallback where it has none.
pub open spec fn base_popularity(t: FrequencyTable, id: nat) -> int {
    let v = frequency_views(t.records@);
    if exists|i: int| is_first_with(v, id, i) {
        v[choose|i: int| is_first_with(v, id, i)].popularity
    } else {
        t.fallback()
    }
}

/// The least and the greatest base popularity.
pub open spec fn popularity_range(p: int) -> bool {
    i64::MIN - u64::MAX <= p <= i64::MAX
}

/// The base popularity of the entry with sequence id `ent_seq`.
pub fn get_popularity(ent_seq: u32, table: &FrequencyTable) -> (r: i128)
    requires
        table.wf(),
    ensures
        r == base_popularity(*table, ent_seq as nat),
        popularity_range(r as int),
{
    let ghost v = frequency_views(table.records@);
    match table.lookup(ent_seq) {
        Some(p) => {
            proof {
                let i = choose|i: int| is_first_with(v, ent_seq as nat, i)
                    && #[trigger] table.records@[i].popularity == p;
                let j = choose|j: int| is_first_with(v, ent_seq as nat, j);
                if i < j {
                    assert(v[i].ent_seq != ent_seq as nat);
                } else if j < i {
                    assert(v[j].ent_seq != ent_seq as nat);
                }
                assert(i == j);
            }
            p as i128
        },
        None => {
            proof {
                if exists|i: int| is_first_with(v, ent_seq as nat, i) {
                    let j = choose|j: int| is_first_with(v, ent_seq as nat, j);
                    assert(table.records@[j].ent_seq != ent_seq);
                }
            }
            table.mean as i128 - table.std_deviation as i128
        },
    }
}

} // verus!
