//! Counting extraction outcomes and canonical tag pairs.
use crate::codec::{canonical_code, canonical_pair, compress_seq, ordered_pair, CodecError, MAX_CODE_LEN};
use crate::extract::ExtractRes;
use std::collections::HashMap;
use vstd::prelude::*;

verus! {

broadcast use vstd::std_specs::hash::group_hash_axioms;

/// What one read contributes to the tally: a canonical tag pair, or the
/// reason no pair was cut.
#[derive(Debug, Clone, Copy, PartialEq, Eq, Structural)]
pub enum Outcome {
    Pair(u64, u64),
    ScoreTooLow,
    LeftTooShort,
    RightTooShort,
}

/// One counter per extraction outcome.
#[derive(Debug, Clone, Copy, PartialEq, Eq, Structural)]
pub struct ResCounter {
    pub linker_reads: u64,
    pub score_too_low: u64,
    pub left_too_short: u64,
    pub right_too_short: u64,
}

impl ResCounter {
    pub open spec fn total_spec(&self) -> int {
        self.linker_reads + self.score_too_low + self.left_too_short + self.right_too_short
    }

    pub fn new() -> (r: Self)
        ensures
            r.linker_reads == 0,
            r.score_too_low == 0,
            r.left_too_short == 0,
            r.right_too_short == 0,
    {
        ResCounter { linker_reads: 0, score_too_low: 0, left_too_short: 0, right_too_short: 0 }
    }

    /// Number of reads counted.
    pub fn total(&self) -> (r: u64)
        requires
            self.total_spec() <= u64::MAX,
        ensures
            r == self.total_spec(),
    {
        self.linker_reads + self.score_too_low + self.left_too_short + self.right_too_short
    }

    /// Counts one read under its outcome.
    pub fn count(&mut self, res: &ExtractRes)
        requires
            old(self).total_spec() < u64::MAX,
        ensures
            *final(self) == counted(*old(self), kind_of(res)),
            final(self).total_spec() == old(self).total_spec() + 1,
    {
        match res {
            ExtractRes::Tags(_, _) => { self.linker_reads = self.linker_reads + 1 },
            ExtractRes::ScoreTooLow => { self.score_too_low = self.score_too_low + 1 },
            ExtractRes::LeftTooShort => { self.left_too_short = self.left_too_short + 1 },
            ExtractRes::RightTooShort => { self.right_too_short = self.right_too_short + 1 },
        }
    }
}

/// The outcome of an extraction, with an empty pair standing for any pair:
/// only the kind matters to the counters.
pub open spec fn kind_of(res: &ExtractRes) -> Outcome {
    match res {
        ExtractRes::Tags(_, _) => Outcome::Pair(0, 0),
        ExtractRes::ScoreTooLow => Outcome::ScoreTooLow,
        ExtractRes::LeftTooShort => Outcome::LeftTooShort,
        ExtractRes::RightTooShort => Outcome::RightTooShort,
    }
}

/// The counters after one more read with outcome `o`.
pub open spec fn counted(c: ResCounter, o: Outcome) -> ResCounter {
    match o {
        Outcome::Pair(_, _) => ResCounter { linker_reads: (c.linker_reads + 1) as u64, ..c },
        Outcome::ScoreTooLow => ResCounter { score_too_low: (c.score_too_low + 1) as u64, ..c },
        Outcome::LeftTooShort => ResCounter {
            left_too_short: (c.left_too_short + 1) as u64,
            ..c
        },
        Outcome::RightTooShort => ResCounter {
            right_too_short: (c.right_too_short + 1) as u64,
            ..c
        },
    }
}

/// The frequency table after one more read with outcome `o`.
pub open spec fn bumped(m: Map<(u64, u64), u64>, o: Outcome) -> Map<(u64, u64), u64> {
    match o {
        Outcome::Pair(a, b) => m.insert(
            (a, b),
            if m.contains_key((a, b)) {
                (m[(a, b)] + 1) as u64
            } else {
                1
            },
        ),
        _ => m,
    }
}

/// Every read lands in exactly one counter: after `n` reads the counters
/// sum to `n`.
pub proof fn lemma_counters_sum_to_reads(os: Seq<Outcome>)
    requires
        os.len() < u64::MAX,
    ensures
        tally_of(os).0.total_spec() == os.len(),
    decreases os.len(),
{
    if os.len() > 0 {
        lemma_counters_sum_to_reads(os.drop_last());
    }
}

/// Recording two reads in either order leaves the same counters and the
/// same frequency table, so the result of a run does not depend on the order
/// in which workers deliver their reads.
pub proof fn lemma_record_order_irrelevant(
    c: ResCounter,
    m: Map<(u64, u64), u64>,
    o1: Outcome,
    o2: Outcome,
)
    ensures
        counted(counted(c, o1), o2) == counted(counted(c, o2), o1),
        bumped(bumped(m, o1), o2) == bumped(bumped(m, o2), o1),
{
    assert(bumped(bumped(m, o1), o2) =~= bumped(bumped(m, o2), o1));
}

/// Counters and frequency table after recording a run of reads in order,
/// from an empty tally.
pub open spec fn tally_of(os: Seq<Outcome>) -> (ResCounter, Map<(u64, u64), u64>)
    decreases os.len(),
{
    if os.len() == 0 {
        (ResCounter::new_spec(), Map::empty())
    } else {
        let t = tally_of(os.drop_last());
        (counted(t.0, os.last()), bumped(t.1, os.last()))
    }
}

proof fn lemma_tally_insert(s: Seq<Outcome>, i: int, x: Outcome)
    requires
        0 <= i <= s.len(),
    ensures
        tally_of(s.insert(i, x)) == (counted(tally_of(s).0, x), bumped(tally_of(s).1, x)),
    decreases s.len(),
{
    if i == s.len() {
        assert(s.insert(i, x).drop_last() =~= s);
    } else {
        let t = s.drop_last();
        lemma_tally_insert(t, i, x);
        assert(s.insert(i, x).drop_last() =~= t.insert(i, x));
        assert(s.insert(i, x).last() == s.last());
        let u = tally_of(t);
        lemma_record_order_irrelevant(u.0, u.1, x, s.last());
    }
}

/// Recording the same reads in any order gives the same counters and the
/// same frequency table: a run with one worker and a run with many agree.
pub proof fn lemma_tally_order_independent(a: Seq<Outcome>, b: Seq<Outcome>)
    requires
        a.to_multiset() == b.to_multiset(),
    ensures
        tally_of(a) == tally_of(b),
    decreases a.len(),
{
    broadcast use vstd::seq_lib::group_to_multiset_ensures;

    if a.len() == 0 {
        assert(a.to_multiset().len() == 0);
        assert(b.to_multiset().len() == b.len());
        assert(b =~= Seq::<Outcome>::empty());
        assert(a =~= Seq::<Outcome>::empty());
    } else {
        let x = a.last();
        assert(a.contains(x)) by {
            assert(a[a.len() - 1] == x);
        }
        assert(b.to_multiset().count(x) > 0);
        assert(b.contains(x));
        let i = choose|i: int| 0 <= i < b.len() && b[i] == x;
        let rest = b.remove(i);
        assert(rest.insert(i, x) =~= b);
        assert(a.drop_last().push(x) =~= a);
        assert(a.drop_last().to_multiset() =~= a.to_multiset().remove(x)) by {
            assert(a.drop_last().push(x).to_multiset() =~= a.drop_last().to_multiset().insert(x));
        }
        lemma_tally_order_independent(a.drop_last(), rest);
        lemma_tally_insert(rest, i, x);
    }
}

/// Key of a pair of codes in the hash table: `a * 2^64 + b`.
pub open spec fn pack_spec(a: u64, b: u64) -> u128 {
    (a * 0x1_0000_0000_0000_0000 + b) as u128
}

fn pack(a: u64, b: u64) -> (r: u128)
    ensures
        r == pack_spec(a, b),
{
    proof {
        assert(a * 0x1_0000_0000_0000_0000 + b <= u128::MAX) by (nonlinear_arith)
            requires
                a <= u64::MAX,
                b <= u64::MAX,
        ;
    }
    (a as u128) * 0x1_0000_0000_0000_0000 + (b as u128)
}

proof fn lemma_pack_injective(a: u64, b: u64, c: u64, d: u64)
    requires
        pack_spec(a, b) == pack_spec(c, d),
    ensures
        a == c && b == d,
{
    assert(a * 0x1_0000_0000_0000_0000 + b <= u128::MAX) by (nonlinear_arith)
        requires
            a <= u64::MAX,
            b <= u64::MAX,
    ;
    assert(c * 0x1_0000_0000_0000_0000 + d <= u128::MAX) by (nonlinear_arith)
        requires
            c <= u64::MAX,
            d <= u64::MAX,
    ;
    assert(a == c && b == d) by (nonlinear_arith)
        requires
            a * 0x1_0000_0000_0000_0000 + b == c * 0x1_0000_0000_0000_0000 + d,
            0 <= b < 0x1_0000_0000_0000_0000,
            0 <= d < 0x1_0000_0000_0000_0000,
            0 <= a,
            0 <= c,
    ;
}

/// Triples compare lexicographically, as std orders tuples.
pub open spec fn triple_le(x: (u64, u64, u64), y: (u64, u64, u64)) -> bool {
    x.0 < y.0 || (x.0 == y.0 && (x.1 < y.1 || (x.1 == y.1 && x.2 <= y.2)))
}

/// Relies on `slice::sort_unstable`: the elements are permuted into
/// ascending order, tuples ordered lexicographically.
#[verifier::external_body]
pub(crate) fn sort_triples(v: &mut Vec<(u64, u64, u64)>)
    ensures
        final(v)@.to_multiset() == old(v)@.to_multiset(),
        forall|i: int, j: int|
            0 <= i < j < final(v)@.len() ==> triple_le(final(v)@[i], final(v)@[j]),
{
    v.sort_unstable();
}

/// Accumulates outcome counters and the canonical tag-pair frequency table.
/// It is the one owner of both: workers hand it their results.
pub struct PairTally {
    counter: ResCounter,
    table: HashMap<u128, u64>,
    keys: Vec<(u64, u64)>,
}

impl PairTally {
    pub closed spec fn counter_view(&self) -> ResCounter {
        self.counter
    }

    /// The frequency table: canonical pair of codes to number of reads.
    pub closed spec fn freq(&self) -> Map<(u64, u64), u64> {
        Map::new(
            |p: (u64, u64)| self.table@.contains_key(pack_spec(p.0, p.1)),
            |p: (u64, u64)| self.table@[pack_spec(p.0, p.1)],
        )
    }

    pub closed spec fn wf(&self) -> bool {
        &&& self.keys@.no_duplicates()
        &&& forall|k: u128| #[trigger]
            self.table@.contains_key(k) ==> exists|i: int|
                0 <= i < self.keys@.len() && k == pack_spec(
                    #[trigger] self.keys@[i].0,
                    self.keys@[i].1,
                )
        &&& forall|i: int|
            0 <= i < self.keys@.len() ==> self.table@.contains_key(
                pack_spec(#[trigger] self.keys@[i].0, self.keys@[i].1),
            )
        &&& forall|k: u128| #[trigger]
            self.table@.contains_key(k) ==> self.table@[k] <= self.counter.linker_reads
    }

    pub fn new() -> (r: Self)
        ensures
            r.wf(),
            r.counter_view() == ResCounter::new_spec(),
            r.freq() == Map::<(u64, u64), u64>::empty(),
    {
        let r = PairTally { counter: ResCounter::new(), table: HashMap::new(), keys: Vec::new() };
        assert(r.freq() =~= Map::<(u64, u64), u64>::empty());
        r
    }

    /// The outcome counters.
    pub fn counter(&self) -> (r: ResCounter)
        ensures
            r == self.counter_view(),
    {
        self.counter
    }

    /// Number of reads recorded.
    pub fn total(&self) -> (r: u64)
        requires
            self.counter_view().total_spec() <= u64::MAX,
        ensures
            r == self.counter_view().total_spec(),
    {
        self.counter.total()
    }

    fn bump(&mut self, a: u64, b: u64)
        requires
            old(self).wf(),
            old(self).counter.linker_reads < u64::MAX,
        ensures
            final(self).wf(),
            final(self).counter == (ResCounter {
                linker_reads: (old(self).counter.linker_reads + 1) as u64,
                ..old(self).counter
            }),
            final(self).freq() == bumped(old(self).freq(), Outcome::Pair(a, b)),
    {
        let k = pack(a, b);
        let cur = self.table.get(&k);
        let n: u64 = match cur {
            Some(c) => *c + 1,
            None => 1,
        };
        let fresh = cur.is_none();
        let ghost old_freq = self.freq();
        self.table.insert(k, n);
        self.counter.linker_reads = self.counter.linker_reads + 1;
        if fresh {
            self.keys.push((a, b));
        }
        proof {
            let nk = self.keys@;
            assert forall|i: int| 0 <= i < nk.len() implies self.table@.contains_key(
                pack_spec(#[trigger] nk[i].0, nk[i].1),
            ) by {
                if i < old(self).keys@.len() {
                    assert(nk[i] == old(self).keys@[i]);
                }
            }
            assert forall|kk: u128| #[trigger] self.table@.contains_key(kk) implies exists|i: int|
                0 <= i < nk.len() && kk == pack_spec(#[trigger] nk[i].0, nk[i].1) by {
                if kk == k {
                    if fresh {
                        let i = nk.len() - 1;
                        assert(kk == pack_spec(nk[i].0, nk[i].1));
                    } else {
                        assert(old(self).table@.contains_key(kk));
                        let i = choose|i: int|
                            0 <= i < old(self).keys@.len() && kk == pack_spec(
                                #[trigger] old(self).keys@[i].0,
                                old(self).keys@[i].1,
                            );
                        assert(nk[i] == old(self).keys@[i]);
                    }
                } else {
                    assert(old(self).table@.contains_key(kk));
                    let i = choose|i: int|
                        0 <= i < old(self).keys@.len() && kk == pack_spec(
                            #[trigger] old(self).keys@[i].0,
                            old(self).keys@[i].1,
                        );
                    assert(nk[i] == old(self).keys@[i]);
                }
            }
            if fresh {
                assert forall|i: int, j: int|
                    0 <= i < nk.len() && 0 <= j < nk.len() && i != j implies nk[i] != nk[j] by {
                    if j == nk.len() - 1 && i < old(self).keys@.len() {
                        assert(old(self).table@.contains_key(
                            pack_spec(old(self).keys@[i].0, old(self).keys@[i].1),
                        ));
                    }
                    if i == nk.len() - 1 && j < old(self).keys@.len() {
                        assert(old(self).table@.contains_key(
                            pack_spec(old(self).keys@[j].0, old(self).keys@[j].1),
                        ));
                    }
                }
            }
            assert forall|p: (u64, u64)|
                #![auto]
                self.table@.contains_key(pack_spec(p.0, p.1)) == bumped(
                    old_freq,
                    Outcome::Pair(a, b),
                ).contains_key(p) by {
                if pack_spec(p.0, p.1) == k {
                    lemma_pack_injective(p.0, p.1, a, b);
                }
            }
            assert forall|p: (u64, u64)|
                #![auto]
                self.table@.contains_key(pack_spec(p.0, p.1)) implies self.table@[pack_spec(
                    p.0,
                    p.1,
                )] == bumped(old_freq, Outcome::Pair(a, b))[p] by {
                if pack_spec(p.0, p.1) == k {
                    lemma_pack_injective(p.0, p.1, a, b);
                }
            }
            assert(self.freq() =~= bumped(old_freq, Outcome::Pair(a, b)));
        }
    }

    /// Records one read's outcome: the counter of its kind goes up by one,
    /// and a cut pair of tags goes into the frequency table under the
    /// canonical pair of their codes. Fails, changing nothing, when a tag is
    /// too long to encode.
    pub fn record(&mut self, res: &ExtractRes) -> (r: Result<(), CodecError>)
        requires
            old(self).wf(),
            old(self).counter_view().total_spec() < u64::MAX,
        ensures
            final(self).wf(),
            match res {
                ExtractRes::Tags(left, right) => if left@.len() > MAX_CODE_LEN || right@.len()
                    > MAX_CODE_LEN {
                    &&& r == Err::<(), CodecError>(CodecError::SequenceTooLong)
                    &&& final(self).counter_view() == old(self).counter_view()
                    &&& final(self).freq() == old(self).freq()
                } else {
                    let (a, b) = ordered_pair(canonical_code(left@), canonical_code(right@));
                    &&& r is Ok
                    &&& final(self).counter_view() == counted(
                        old(self).counter_view(),
                        Outcome::Pair(a, b),
                    )
                    &&& final(self).freq() == bumped(old(self).freq(), Outcome::Pair(a, b))
                },
                _ => {
                    &&& r is Ok
                    &&& final(self).counter_view() == counted(
                        old(self).counter_view(),
                        kind_of(res),
                    )
                    &&& final(self).freq() == old(self).freq()
                },
            },
    {
        match res {
            ExtractRes::Tags(left, right) => {
                let a = match compress_seq(left.as_slice()) {
                    Ok(c) => c,
                    Err(e) => {
                        return Err(e);
                    },
                };
                let b = match compress_seq(right.as_slice()) {
                    Ok(c) => c,
                    Err(e) => {
                        return Err(e);
                    },
                };
                let (x, y) = canonical_pair(a, b);
                self.bump(x, y);
                Ok(())
            },
            _ => {
                let ghost f = self.freq();
                self.counter.count(res);
                proof {
                    assert forall|k: u128| #[trigger]
                        self.table@.contains_key(k) implies self.table@[k]
                        <= self.counter.linker_reads by {
                        assert(old(self).table@.contains_key(k));
                    }
                    assert(self.freq() =~= f);
                }
                Ok(())
            },
        }
    }
}

impl ResCounter {
    pub open spec fn new_spec() -> ResCounter {
        ResCounter { linker_reads: 0, score_too_low: 0, left_too_short: 0, right_too_short: 0 }
    }
}

/// Share of `c` in `total`, in hundredths of a percent, rounded half up;
/// 0 when `total` is 0.
pub fn percent_hundredths(c: u64, total: u64) -> (r: u64)
    requires
        c <= total,
    ensures
        total == 0 ==> r == 0,
        total > 0 ==> r == (20000 * c + total) / (2 * total),
        r <= 10000,
{
    if total == 0 {
        return 0;
    }
    let c2 = c as u128;
    let t2 = total as u128;
    proof {
        assert(20000 * c2 + t2 <= 20001 * t2) by (nonlinear_arith)
            requires
                c2 <= t2,
        ;
        assert(20001 * t2 <= 20001 * 0x1_0000_0000_0000_0000) by (nonlinear_arith)
            requires
                t2 <= 0x1_0000_0000_0000_0000,
        ;
        assert((20000 * c2 + t2) / (2 * t2) <= 10000) by (nonlinear_arith)
            requires
                c2 <= t2,
                t2 > 0,
        ;
    }
    let q: u128 = (20000 * c2 + t2) / (2 * t2);
    q as u64
}

/// `x` comes no later than `y` in a report: higher count first, ties by
/// the pair of codes.
pub open spec fn report_le(x: (u64, u64, u64), y: (u64, u64, u64)) -> bool {
    x.2 > y.2 || (x.2 == y.2 && (x.0 < y.0 || (x.0 == y.0 && x.1 <= y.1)))
}

impl PairTally {
    fn count_of(&self, i: usize) -> (r: (u64, u64, u64))
        requires
            self.wf(),
            i < self.keys@.len(),
        ensures
            r.0 == self.keys@[i as int].0,
            r.1 == self.keys@[i as int].1,
            self.freq().contains_key((r.0, r.1)),
            r.2 == self.freq()[(r.0, r.1)],
    {
        let (a, b) = self.keys[i];
        let k = pack(a, b);
        assert(self.table@.contains_key(pack_spec(self.keys@[i as int].0, self.keys@[i as int].1)));
        let c = *self.table.get(&k).unwrap();
        (a, b, c)
    }

    /// The frequency table as `(code1, code2, count)` rows, each pair once,
    /// by count descending and then by the pair of codes.
    pub fn report(&self) -> (r: Vec<(u64, u64, u64)>)
        requires
            self.wf(),
        ensures
            forall|j: int|
                0 <= j < r@.len() ==> {
                    &&& self.freq().contains_key((#[trigger] r@[j].0, r@[j].1))
                    &&& self.freq()[(r@[j].0, r@[j].1)] == r@[j].2
                },
            forall|p: (u64, u64)|
                #[trigger] self.freq().contains_key(p) ==> exists|j: int|
                    0 <= j < r@.len() && (#[trigger] r@[j].0, r@[j].1) == p,
            forall|i: int, j: int| 0 <= i < j < r@.len() ==> report_le(r@[i], r@[j]),
            forall|i: int, j: int|
                0 <= i < j < r@.len() ==> (r@[i].0, r@[i].1) != (r@[j].0, r@[j].1),
    {
        broadcast use vstd::seq_lib::group_to_multiset_ensures;

        let n = self.keys.len();
        let mut v: Vec<(u64, u64, u64)> = Vec::with_capacity(n);
        let mut i: usize = 0;
        while i < n
            invariant
                self.wf(),
                n == self.keys@.len(),
                i <= n,
                v@.len() == i,
                forall|j: int|
                    0 <= j < i ==> {
                        &&& self.freq().contains_key((self.keys@[j].0, self.keys@[j].1))
                        &&& #[trigger] v@[j] == (
                            (u64::MAX - self.freq()[(self.keys@[j].0, self.keys@[j].1)]) as u64,
                            self.keys@[j].0,
                            self.keys@[j].1,
                        )
                    },
            decreases n - i,
        {
            let (a, b, c) = self.count_of(i);
            v.push((u64::MAX - c, a, b));
            i += 1;
        }
        let ghost before = v@;
        sort_triples(&mut v);
        let ghost sorted = v@;
        assert forall|j: int| 0 <= j < sorted.len() implies exists|t: int|
            0 <= t < n && #[trigger] sorted[j] == before[t] by {
            assert(sorted.contains(sorted[j]));
            assert(before.to_multiset().count(sorted[j]) > 0);
            assert(before.contains(sorted[j]));
        }
        let m = v.len();
        let mut out: Vec<(u64, u64, u64)> = Vec::with_capacity(m);
        let mut j: usize = 0;
        while j < m
            invariant
                m == sorted.len(),
                v@ == sorted,
                j <= m,
                out@.len() == j,
                forall|t: int|
                    0 <= t < j ==> #[trigger] out@[t] == (
                        sorted[t].1,
                        sorted[t].2,
                        (u64::MAX - sorted[t].0) as u64,
                    ),
            decreases m - j,
        {
            let (x, a, b) = v[j];
            out.push((a, b, u64::MAX - x));
            j += 1;
        }
        proof {
            assert forall|t: int| 0 <= t < out@.len() implies {
                &&& self.freq().contains_key((#[trigger] out@[t].0, out@[t].1))
                &&& self.freq()[(out@[t].0, out@[t].1)] == out@[t].2
            } by {
                let w = choose|w: int| 0 <= w < n && #[trigger] sorted[t] == before[w];
            }
            assert forall|p: (u64, u64)| #[trigger] self.freq().contains_key(p) implies exists|t: int|
                0 <= t < out@.len() && (#[trigger] out@[t].0, out@[t].1) == p by {
                let k = pack_spec(p.0, p.1);
                assert(self.table@.contains_key(k));
                let w = choose|w: int|
                    0 <= w < self.keys@.len() && k == pack_spec(
                        #[trigger] self.keys@[w].0,
                        self.keys@[w].1,
                    );
                lemma_pack_injective(p.0, p.1, self.keys@[w].0, self.keys@[w].1);
                assert(before.contains(before[w]));
                assert(sorted.to_multiset().count(before[w]) > 0);
                assert(sorted.contains(before[w]));
                let t = choose|t: int| 0 <= t < sorted.len() && sorted[t] == before[w];
                assert(out@[t].0 == p.0 && out@[t].1 == p.1);
            }
            assert forall|a: int, b: int| 0 <= a < b < out@.len() implies report_le(
                out@[a],
                out@[b],
            ) by {
                assert(triple_le(sorted[a], sorted[b]));
            }
            assert(before.no_duplicates()) by {
                assert forall|x: int, y: int| 0 <= x < y < before.len() implies before[x] != before[y] by {
                    assert(self.keys@[x] != self.keys@[y]);
                }
            }
            before.lemma_multiset_has_no_duplicates();
            sorted.lemma_multiset_has_no_duplicates_conv();
            assert forall|a: int, b: int| 0 <= a < b < out@.len() implies (out@[a].0, out@[a].1) != (
                out@[b].0,
                out@[b].1,
            ) by {
                if (out@[a].0, out@[a].1) == (out@[b].0, out@[b].1) {
                    assert(out@[a].2 == out@[b].2);
                    assert(sorted[a] == sorted[b]);
                }
            }
        }
        out
    }
}

pub(crate) proof fn lemma_same_elements(a: Seq<(u64, u64, u64)>, b: Seq<(u64, u64, u64)>, x: (u64, u64, u64))
    requires
        a.to_multiset() == b.to_multiset(),
        a.contains(x),
    ensures
        b.contains(x),
{
    broadcast use vstd::seq_lib::group_to_multiset_ensures;

    assert(a.to_multiset().count(x) > 0);
}

impl PairTally {
    proof fn lemma_code_occurs(
        &self,
        before: Seq<(u64, u64, u64)>,
        sorted: Seq<(u64, u64, u64)>,
        c: u64,
    )
        requires
            self.wf(),
            before.len() == 2 * self.keys@.len(),
            forall|j: int|
                0 <= j < self.keys@.len() ==> #[trigger] before[j] == (self.keys@[j].0, 0u64, 0u64),
            forall|j: int|
                0 <= j < self.keys@.len() ==> #[trigger] before[self.keys@.len() + j] == (
                    self.keys@[j].1,
                    0u64,
                    0u64,
                ),
            sorted.to_multiset() == before.to_multiset(),
            firsts(sorted).contains(c),
        ensures
            occurs(self.freq(), c),
    {
        let n = self.keys@.len() as int;
        let w = choose|w: int| 0 <= w < firsts(sorted).len() && firsts(sorted)[w] == c;
        assert(sorted.contains(sorted[w]));
        lemma_same_elements(sorted, before, sorted[w]);
        let q = choose|q: int| 0 <= q < before.len() && before[q] == sorted[w];
        let k = if q < n { q } else { q - n };
        if q < n {
            assert(before[q] == (self.keys@[k].0, 0u64, 0u64));
        } else {
            assert(before[n + k] == (self.keys@[k].1, 0u64, 0u64));
        }
        let p = self.keys@[k];
        assert(self.table@.contains_key(pack_spec(p.0, p.1)));
        assert(self.freq().contains_key(p));
        assert(p.0 == c || p.1 == c);
    }

    proof fn lemma_freq_key_listed(&self, p: (u64, u64)) -> (w: int)
        requires
            self.wf(),
            self.freq().contains_key(p),
        ensures
            0 <= w < self.keys@.len(),
            self.keys@[w] == p,
    {
        let k = pack_spec(p.0, p.1);
        assert(self.table@.contains_key(k));
        let w = choose|w: int|
            0 <= w < self.keys@.len() && k == pack_spec(
                #[trigger] self.keys@[w].0,
                self.keys@[w].1,
            );
        lemma_pack_injective(p.0, p.1, self.keys@[w].0, self.keys@[w].1);
        w
    }
}

/// `c` is one of the two codes of some pair in `m`.
pub open spec fn occurs(m: Map<(u64, u64), u64>, c: u64) -> bool {
    exists|p: (u64, u64)| m.contains_key(p) && (p.0 == c || p.1 == c)
}

pub open spec fn firsts(s: Seq<(u64, u64, u64)>) -> Seq<u64> {
    s.map_values(|x: (u64, u64, u64)| x.0)
}

/// First components of a sorted run of triples, each value once, ascending.
fn dedup_firsts(v: &Vec<(u64, u64, u64)>) -> (r: Vec<u64>)
    requires
        forall|a: int, b: int| 0 <= a < b < v@.len() ==> triple_le(v@[a], v@[b]),
    ensures
        forall|t: int| 0 <= t < r@.len() ==> firsts(v@).contains(#[trigger] r@[t]),
        forall|w: int| 0 <= w < v@.len() ==> exists|q: int| 0 <= q < r@.len() && r@[q] == #[trigger] v@[w].0,
        forall|a: int, b: int| 0 <= a < b < r@.len() ==> r@[a] < r@[b],
{
    let m = v.len();
    assert forall|a: int| 0 < a < v@.len() implies v@[a - 1].0 <= #[trigger] v@[a].0 by {
        assert(triple_le(v@[a - 1], v@[a]));
    }
    let mut out: Vec<u64> = Vec::new();
    let ghost mut src: Seq<int> = Seq::empty();
    let ghost mut pos: Seq<int> = Seq::empty();
    let mut j: usize = 0;
    while j < m
        invariant
            m == v@.len(),
            j <= m,
            forall|a: int| 0 < a < v@.len() ==> v@[a - 1].0 <= #[trigger] v@[a].0,
            src.len() == out@.len(),
            pos.len() == j,
            forall|t: int| 0 <= t < out@.len() ==> 0 <= #[trigger] src[t] < j && out@[t] == v@[src[t]].0,
            forall|w: int| 0 <= w < j ==> 0 <= #[trigger] pos[w] < out@.len() && out@[pos[w]] == v@[w].0,
            forall|a: int, b: int| 0 <= a < b < out@.len() ==> out@[a] < out@[b],
            j > 0 ==> out@.len() > 0 && out@.last() == v@[j - 1].0,
            j == 0 ==> out@.len() == 0,
        decreases m - j,
    {
        let x = v[j].0;
        let l = out.len();
        if l == 0 || out[l - 1] != x {
            out.push(x);
            proof {
                src = src.push(j as int);
                pos = pos.push(l as int);
            }
        } else {
            proof {
                pos = pos.push((l - 1) as int);
            }
        }
        j += 1;
    }
    proof {
        assert forall|t: int| 0 <= t < out@.len() implies firsts(v@).contains(#[trigger] out@[t]) by {
            assert(firsts(v@)[src[t]] == out@[t]);
        }
        assert forall|w: int| 0 <= w < v@.len() implies exists|q: int| 0 <= q < out@.len() && out@[q] == #[trigger] v@[w].0 by {
            assert(out@[pos[w]] == v@[w].0);
        }
    }
    out
}

impl PairTally {
    /// Every code that occurs in a pair of the table, once each, ascending.
    #[verifier::rlimit(50)]
    pub fn distinct_codes(&self) -> (r: Vec<u64>)
        requires
            self.wf(),
        ensures
            forall|j: int| 0 <= j < r@.len() ==> occurs(self.freq(), #[trigger] r@[j]),
            forall|p: (u64, u64)| #[trigger]
                self.freq().contains_key(p) ==> r@.contains(p.0) && r@.contains(p.1),
            forall|i: int, j: int| 0 <= i < j < r@.len() ==> r@[i] < r@[j],
    {
        let n = self.keys.len();
        let mut v: Vec<(u64, u64, u64)> = Vec::new();
        let mut i: usize = 0;
        while i < n
            invariant
                n == self.keys@.len(),
                i <= n,
                v@.len() == i,
                forall|j: int| 0 <= j < i ==> #[trigger] v@[j] == (self.keys@[j].0, 0u64, 0u64),
            decreases n - i,
        {
            let (a, _) = self.keys[i];
            v.push((a, 0, 0));
            i += 1;
        }
        let mut i: usize = 0;
        while i < n
            invariant
                n == self.keys@.len(),
                i <= n,
                v@.len() == n + i,
                forall|j: int| 0 <= j < n ==> #[trigger] v@[j] == (self.keys@[j].0, 0u64, 0u64),
                forall|j: int| 0 <= j < i ==> #[trigger] v@[n + j] == (self.keys@[j].1, 0u64, 0u64),
            decreases n - i,
        {
            let (_, b) = self.keys[i];
            v.push((b, 0, 0));
            i += 1;
        }
        let ghost before = v@;
        sort_triples(&mut v);
        let ghost sorted = v@;
        let out = dedup_firsts(&v);
        proof {
            assert forall|t: int| 0 <= t < out@.len() implies occurs(self.freq(), #[trigger] out@[t]) by {
                self.lemma_code_occurs(before, sorted, out@[t]);
            }
            assert forall|p: (u64, u64)| #[trigger]
                self.freq().contains_key(p) implies out@.contains(p.0) && out@.contains(p.1) by {
                let w = self.lemma_freq_key_listed(p);
                assert(before[w] == (p.0, 0u64, 0u64));
                assert(before[n + w] == (p.1, 0u64, 0u64));
                lemma_same_elements(before, sorted, before[w]);
                lemma_same_elements(before, sorted, before[n + w]);
                let t1 = choose|t: int| 0 <= t < sorted.len() && sorted[t] == before[w];
                let t2 = choose|t: int| 0 <= t < sorted.len() && sorted[t] == before[n + w];
                let q1 = choose|q: int| 0 <= q < out@.len() && out@[q] == #[trigger] sorted[t1].0;
                let q2 = choose|q: int| 0 <= q < out@.len() && out@[q] == #[trigger] sorted[t2].0;
                assert(out@.contains(out@[q1]));
                assert(out@.contains(out@[q2]));
            }
        }
        out
    }
}

} // verus!
