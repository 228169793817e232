//! Hand-strength lookups: each poker variant maps a prime-product fingerprint
//! of card ranks (with a suited flag) to a dense strength index and a
//! classification label.

use vstd::prelude::*;

verus! {

use crate::utilities::{Card, Rank, RankOrder};
use crate::utilities::{combinations, combinations_spec};
use vstd::arithmetic::power::pow;

/// The classification of a hand.
#[derive(Debug, Clone, Copy, PartialEq, Eq, Structural, Hash)]
pub enum Label {
    HighCard,
    OnePair,
    TwoPair,
    ThreeOfAKind,
    Straight,
    Flush,
    FullHouse,
    FourOfAKind,
    StraightFlush,
}

impl Label {
    /// The label's English name.
    pub fn description(self) -> (r: &'static str)
        ensures
            r@ == self.description_spec(),
    {
        match self {
            Label::HighCard => "High card",
            Label::OnePair => "One pair",
            Label::TwoPair => "Two pair",
            Label::ThreeOfAKind => "Three of a kind",
            Label::Straight => "Straight",
            Label::Flush => "Flush",
            Label::FullHouse => "Full house",
            Label::FourOfAKind => "Four of a kind",
            Label::StraightFlush => "Straight flush",
        }
    }

    /// The label's English name.
    pub open spec fn description_spec(self) -> Seq<char> {
        match self {
            Label::HighCard => "High card"@,
            Label::OnePair => "One pair"@,
            Label::TwoPair => "Two pair"@,
            Label::ThreeOfAKind => "Three of a kind"@,
            Label::Straight => "Straight"@,
            Label::Flush => "Flush"@,
            Label::FullHouse => "Full house"@,
            Label::FourOfAKind => "Four of a kind"@,
            Label::StraightFlush => "Straight flush"@,
        }
    }
}

/// One hand strength: a dense index (greater is stronger) and a label.
/// Two entries are the same strength exactly when their indices agree;
/// the label is informational.
#[derive(Debug, Clone, Copy)]
pub struct Entry {
    pub index: i32,
    pub label: Label,
}

impl PartialEq for Entry {
    fn eq(&self, other: &Self) -> (r: bool) {
        self.index == other.index
    }
}

impl vstd::std_specs::cmp::PartialEqSpecImpl for Entry {
    open spec fn obeys_eq_spec() -> bool {
        true
    }

    open spec fn eq_spec(&self, other: &Self) -> bool {
        self.index == other.index
    }
}

impl Eq for Entry {

}

/// The distinct prime assigned to each rank; the sentinel rank counts as one.
pub open spec fn prime_of_rank(r: Rank) -> nat {
    match r {
        Rank::Ace => 2,
        Rank::Deuce => 3,
        Rank::Trey => 5,
        Rank::Four => 7,
        Rank::Five => 11,
        Rank::Six => 13,
        Rank::Seven => 17,
        Rank::Eight => 19,
        Rank::Nine => 23,
        Rank::Ten => 29,
        Rank::Jack => 31,
        Rank::Queen => 37,
        Rank::King => 41,
        Rank::Unknown => 1,
    }
}

/// The fingerprint of a multiset of ranks: the product of their primes.
pub open spec fn rank_product(ranks: Seq<Rank>) -> nat
    decreases ranks.len(),
{
    if ranks.len() == 0 {
        1
    } else {
        prime_of_rank(ranks[0]) * rank_product(ranks.skip(1))
    }
}

/// Every rank's prime lies between one and forty-one.
pub proof fn lemma_prime_of_rank_bounds(r: Rank)
    ensures
        1 <= prime_of_rank(r) <= 41,
{
}

/// Removing one rank divides the product by that rank's prime.
proof fn lemma_rank_product_remove(s: Seq<Rank>, j: int)
    requires
        0 <= j < s.len(),
    ensures
        rank_product(s) == prime_of_rank(s[j]) * rank_product(s.remove(j)),
    decreases s.len(),
{
    if j == 0 {
        assert(s.remove(0) =~= s.skip(1));
    } else {
        assert(s.remove(j)[0] == s[0]);
        assert(s.remove(j).skip(1) =~= s.skip(1).remove(j - 1));
        assert(s.skip(1)[j - 1] == s[j]);
        lemma_rank_product_remove(s.skip(1), j - 1);
        let p0 = prime_of_rank(s[0]);
        let pj = prime_of_rank(s[j]);
        let x = rank_product(s.skip(1).remove(j - 1));
        assert(p0 * (pj * x) == pj * (p0 * x)) by {
            vstd::arithmetic::mul::lemma_mul_is_associative(p0 as int, pj as int, x as int);
            vstd::arithmetic::mul::lemma_mul_is_commutative(p0 as int, pj as int);
            vstd::arithmetic::mul::lemma_mul_is_associative(pj as int, p0 as int, x as int);
        }
    }
}

/// The prime product is a fingerprint of the ranks as a multiset: any
/// two sequences holding the same ranks, in any order, share it.
pub proof fn lemma_rank_product_permutation(a: Seq<Rank>, b: Seq<Rank>)
    requires
        a.to_multiset() == b.to_multiset(),
    ensures
        rank_product(a) == rank_product(b),
    decreases a.len(),
{
    broadcast use vstd::seq_lib::group_to_multiset_ensures;

    if a.len() == 0 {
        assert(a.to_multiset().len() == a.len());
        assert(b.to_multiset().len() == b.len());
        assert(b.len() == 0);
    } else {
        let x = a[0];
        assert(a.contains(x));
        assert(b.to_multiset().contains(x));
        assert(b.contains(x));
        let j = choose|j: int| 0 <= j < b.len() && b[j] == x;
        lemma_rank_product_remove(b, j);
        assert(a.remove(0) =~= a.skip(1));
        assert(a.skip(1).to_multiset() == b.remove(j).to_multiset()) by {
            assert(a.remove(0).to_multiset() =~= a.to_multiset().remove(x));
            assert(b.remove(j).to_multiset() =~= b.to_multiset().remove(x));
        }
        lemma_rank_product_permutation(a.skip(1), b.remove(j));
    }
}

/// A product of `n` rank primes is at least one and at most `41^n`.
pub proof fn lemma_rank_product_bounds(ranks: Seq<Rank>)
    ensures
        1 <= rank_product(ranks) <= pow(41, ranks.len()),
    decreases ranks.len(),
{
    vstd::arithmetic::power::lemma_pow_positive(41, ranks.len());
    if ranks.len() > 0 {
        lemma_rank_product_bounds(ranks.skip(1));
        lemma_prime_of_rank_bounds(ranks[0]);
        assert(rank_product(ranks) == prime_of_rank(ranks[0]) * rank_product(ranks.skip(1)));
        vstd::arithmetic::mul::lemma_mul_upper_bound(
            prime_of_rank(ranks[0]) as int,
            41,
            rank_product(ranks.skip(1)) as int,
            pow(41, (ranks.len() - 1) as nat),
        );
        assert(pow(41, ranks.len()) == 41 * pow(41, (ranks.len() - 1) as nat)) by {
            vstd::arithmetic::power::lemma_pow_adds(41, 1, (ranks.len() - 1) as nat);
            vstd::arithmetic::power::lemma_pow1(41);
        }
        vstd::arithmetic::mul::lemma_mul_increases(
            prime_of_rank(ranks[0]) as int,
            rank_product(ranks.skip(1)) as int,
        );
    }
}

/// The rank's prime, as a machine integer.
pub fn rank_prime(r: Rank) -> (p: u64)
    ensures
        p == prime_of_rank(r),
{
    match r {
        Rank::Ace => 2,
        Rank::Deuce => 3,
        Rank::Trey => 5,
        Rank::Four => 7,
        Rank::Five => 11,
        Rank::Six => 13,
        Rank::Seven => 17,
        Rank::Eight => 19,
        Rank::Nine => 23,
        Rank::Ten => 29,
        Rank::Jack => 31,
        Rank::Queen => 37,
        Rank::King => 41,
        Rank::Unknown => 1,
    }
}

/// Computes the fingerprint of a rank sequence, or nothing if the product
/// exceeds the 128-bit range (no lookup key is ever that large).
pub fn hash_ranks(ranks: &Vec<Rank>) -> (r: Option<u128>)
    ensures
        match r {
            Option::Some(h) => h == rank_product(ranks@),
            Option::None => rank_product(ranks@) > u128::MAX,
        },
{
    let mut acc: u128 = 1;
    let mut i: usize = ranks.len();
    proof {
        assert(ranks@.skip(i as int) =~= Seq::<Rank>::empty());
    }
    while i > 0
        invariant
            0 <= i <= ranks@.len(),
            acc == rank_product(ranks@.skip(i as int)),
        decreases i,
    {
        i = i - 1;
        let p = rank_prime(ranks[i]);
        proof {
            assert(ranks@.skip(i as int)[0] == ranks@[i as int]);
            assert(ranks@.skip(i as int).skip(1) =~= ranks@.skip(i as int + 1));
            lemma_rank_product_bounds(ranks@.skip(i as int));
        }
        proof {
            vstd::arithmetic::mul::lemma_mul_is_commutative(
                acc as int,
                prime_of_rank(ranks@[i as int]) as int,
            );
        }
        match acc.checked_mul(p as u128) {
            Option::Some(next) => {
                acc = next;
            },
            Option::None => {
                // The suffix already exceeds the range; the whole product
                // can only be larger.
                proof {
                    lemma_rank_product_partial_monotone(ranks@, i as int);
                }
                return Option::None;
            },
        }
    }
    proof {
        assert(ranks@.skip(0) =~= ranks@);
    }
    Option::Some(acc)
}

/// A product over a whole rank sequence is at least the product over any
/// of its suffixes.
pub proof fn lemma_rank_product_partial_monotone(ranks: Seq<Rank>, i: int)
    requires
        0 <= i <= ranks.len(),
    ensures
        rank_product(ranks) >= rank_product(ranks.skip(i)),
    decreases i,
{
    if i == 0 {
        assert(ranks.skip(0) =~= ranks);
    } else {
        lemma_rank_product_partial_monotone(ranks, i - 1);
        let s = ranks.skip(i - 1);
        assert(s.skip(1) =~= ranks.skip(i));
        lemma_prime_of_rank_bounds(s[0]);
        lemma_rank_product_bounds(ranks.skip(i));
        let a = prime_of_rank(s[0]) as int;
        let b = rank_product(ranks.skip(i)) as int;
        assert(rank_product(s) == a * b);
        assert(a * b >= b) by (nonlinear_arith)
            requires
                a >= 1,
                b >= 1,
        ;
        assert(rank_product(ranks) >= rank_product(s));
        assert(rank_product(s) >= rank_product(ranks.skip(i)));
    }
}

/// One row of a lookup table: a fingerprint, a suited flag, and the entry
/// they map to.
#[derive(Debug, Clone, Copy)]
pub struct TableRow {
    pub key: u128,
    pub suited: bool,
    pub entry: Entry,
}

/// The position of the first row with the given key, or minus one.
pub open spec fn row_index_of(rows: Seq<TableRow>, key: u128, suited: bool) -> int
    decreases rows.len(),
{
    if rows.len() == 0 {
        -1
    } else if rows[0].key == key && rows[0].suited == suited {
        0
    } else {
        let r = row_index_of(rows.skip(1), key, suited);
        if r == -1 {
            -1
        } else {
            1 + r
        }
    }
}

/// The entry mapped to a key, if any.
pub open spec fn rows_find(rows: Seq<TableRow>, key: u128, suited: bool) -> Option<Entry> {
    let i = row_index_of(rows, key, suited);
    if i == -1 {
        Option::None
    } else {
        Option::Some(rows[i].entry)
    }
}

/// The first matching position is a match, lies in range, and nothing
/// before it matches; minus one means no match at all.
pub proof fn lemma_row_index_of(rows: Seq<TableRow>, key: u128, suited: bool)
    ensures
        row_index_of(rows, key, suited) == -1 ==> forall|i: int|
            0 <= i < rows.len() ==> !(rows[i].key == key && rows[i].suited == suited),
        row_index_of(rows, key, suited) != -1 ==> {
            let ix = row_index_of(rows, key, suited);
            &&& 0 <= ix < rows.len()
            &&& rows[ix].key == key && rows[ix].suited == suited
            &&& forall|i: int| 0 <= i < ix ==> !(rows[i].key == key && rows[i].suited == suited)
        },
    decreases rows.len(),
{
    if rows.len() > 0 {
        lemma_row_index_of(rows.skip(1), key, suited);
        assert(forall|i: int| 1 <= i < rows.len() ==> rows[i] == rows.skip(1)[i - 1]);
    }
}

/// Inserting a row: the first row with the same key is replaced, or the row
/// is appended at the end.
pub open spec fn rows_insert(rows: Seq<TableRow>, key: u128, suited: bool, entry: Entry) -> Seq<
    TableRow,
> {
    let i = row_index_of(rows, key, suited);
    if i == -1 {
        rows.push(TableRow { key, suited, entry })
    } else {
        rows.update(i, TableRow { key, suited, entry })
    }
}

/// The ranks left over after removing every rank that occurs in the sample.
pub open spec fn remaining_ranks(ranks: Seq<Rank>, sample: Seq<Rank>) -> Seq<Rank>
    decreases ranks.len(),
{
    if ranks.len() == 0 {
        Seq::empty()
    } else if sample.contains(ranks[0]) {
        remaining_ranks(ranks.skip(1), sample)
    } else {
        seq![ranks[0]] + remaining_ranks(ranks.skip(1), sample)
    }
}

/// The combined weight of a multiplicity counter: the total number of cards
/// described by its `(multiplicity, count)` parts.
pub open spec fn counter_weight(counter: Seq<(u32, u32)>) -> int
    decreases counter.len(),
{
    if counter.len() == 0 {
        0
    } else {
        counter_weight(counter.drop_last()) + counter.last().0 * counter.last().1
    }
}

/// The fingerprint contributed by one sample under a multiplicity: the
/// sample's rank product raised to that multiplicity.
pub open spec fn sample_hash(sample: Seq<Rank>, mult: nat) -> nat {
    pow(rank_product(sample) as int, mult) as nat
}

/// Each value of the sequence, multiplied by a common factor.
pub open spec fn scaled(hp: nat, s: Seq<nat>) -> Seq<nat> {
    Seq::new(s.len(), |i: int| (hp * s[i]) as nat)
}

/// The fingerprints of all hands described by a multiplicity counter, taking
/// the counter's parts from the last (largest multiplicity) down, choosing
/// each part's ranks from the high end of the order first.
pub open spec fn hash_multisets_spec(ranks: Seq<Rank>, counter: Seq<(u32, u32)>) -> Seq<nat>
    decreases counter.len(), 0int,
{
    if counter.len() == 0 {
        seq![1nat]
    } else {
        let mult = counter.last().0;
        let count = counter.last().1;
        hash_multisets_over(
            ranks,
            combinations_spec(ranks.reverse(), count as nat),
            mult as nat,
            counter.drop_last(),
        )
    }
}

/// The fingerprints contributed by each sample in turn.
pub open spec fn hash_multisets_over(
    ranks: Seq<Rank>,
    samples: Seq<Seq<Rank>>,
    mult: nat,
    rest: Seq<(u32, u32)>,
) -> Seq<nat>
    decreases rest.len(), samples.len() + 1,
{
    if samples.len() == 0 {
        Seq::empty()
    } else {
        let hp = sample_hash(samples[0], mult);
        let sub = hash_multisets_spec(remaining_ranks(ranks, samples[0]), rest);
        scaled(hp, sub) + hash_multisets_over(ranks, samples.skip(1), mult, rest)
    }
}

/// Every combination drawn from a sequence has exactly the requested size.
pub proof fn lemma_combinations_elem_len<T>(s: Seq<T>, k: nat)
    ensures
        forall|i: int|
            0 <= i < combinations_spec(s, k).len() ==> (#[trigger] combinations_spec(s, k)[i]).len()
                == k,
    decreases s.len(), k,
{
    if k == 0 || s.len() < k {
    } else {
        lemma_combinations_elem_len(s.skip(1), (k - 1) as nat);
        lemma_combinations_elem_len(s.skip(1), k);
        let with_head = combinations_spec(s.skip(1), (k - 1) as nat).map_values(
            |c: Seq<T>| seq![s[0]] + c,
        );
        let without = combinations_spec(s.skip(1), k);
        assert forall|i: int|
            0 <= i < combinations_spec(s, k).len() implies (#[trigger] combinations_spec(s, k)[i]).len()
            == k by {
            if i < with_head.len() {
                assert(combinations_spec(s, k)[i] == with_head[i]);
            } else {
                assert(combinations_spec(s, k)[i] == without[i - with_head.len()]);
            }
        }
    }
}

/// Exponentiation is monotone in a positive base.
pub proof fn lemma_pow_base_monotone(a: nat, b: nat, e: nat)
    requires
        1 <= a <= b,
    ensures
        pow(a as int, e) <= pow(b as int, e),
    decreases e,
{
    if e > 0 {
        lemma_pow_base_monotone(a, b, (e - 1) as nat);
        vstd::arithmetic::power::lemma_pow_positive(a as int, (e - 1) as nat);
        vstd::arithmetic::power::lemma_pow_positive(b as int, (e - 1) as nat);
        assert(pow(a as int, e) == a * pow(a as int, (e - 1) as nat)) by {
            vstd::arithmetic::power::lemma_pow_adds(a as int, 1, (e - 1) as nat);
            vstd::arithmetic::power::lemma_pow1(a as int);
        }
        assert(pow(b as int, e) == b * pow(b as int, (e - 1) as nat)) by {
            vstd::arithmetic::power::lemma_pow_adds(b as int, 1, (e - 1) as nat);
            vstd::arithmetic::power::lemma_pow1(b as int);
        }
        vstd::arithmetic::mul::lemma_mul_upper_bound(
            a as int,
            b as int,
            pow(a as int, (e - 1) as nat),
            pow(b as int, (e - 1) as nat),
        );
        assert((a as int) * pow(a as int, (e - 1) as nat) <= (b as int) * pow(
            b as int,
            (e - 1) as nat,
        ));
        assert(pow(a as int, e) <= pow(b as int, e));
    } else {
        vstd::arithmetic::power::lemma_pow0(a as int);
        vstd::arithmetic::power::lemma_pow0(b as int);
    }
}

/// A counter's weight is never negative.
pub proof fn lemma_counter_weight_nonneg(c: Seq<(u32, u32)>)
    ensures
        counter_weight(c) >= 0,
    decreases c.len(),
{
    if c.len() > 0 {
        lemma_counter_weight_nonneg(c.drop_last());
        vstd::arithmetic::mul::lemma_mul_nonnegative(c.last().0 as int, c.last().1 as int);
    }
}

/// Every fingerprint that a counter describes lies between one and
/// forty-one to the counter's weight.
pub proof fn lemma_hash_multisets_bounds(ranks: Seq<Rank>, counter: Seq<(u32, u32)>)
    ensures
        forall|i: int|
            0 <= i < hash_multisets_spec(ranks, counter).len() ==> 1 <= #[trigger] hash_multisets_spec(
                ranks,
                counter,
            )[i] <= pow(41, counter_weight(counter) as nat),
    decreases counter.len(), 0int,
{
    lemma_counter_weight_nonneg(counter);
    if counter.len() == 0 {
        vstd::arithmetic::power::lemma_pow0(41);
    } else {
        let mult = counter.last().0;
        let count = counter.last().1;
        let samples = combinations_spec(ranks.reverse(), count as nat);
        lemma_combinations_elem_len(ranks.reverse(), count as nat);
        lemma_counter_weight_nonneg(counter.drop_last());
        vstd::arithmetic::mul::lemma_mul_nonnegative(mult as int, count as int);
        lemma_hash_multisets_over_bounds(
            ranks,
            samples,
            mult as nat,
            counter.drop_last(),
            count as nat,
        );
        assert(counter_weight(counter) == counter_weight(counter.drop_last()) + mult * count);
        assert(hash_multisets_spec(ranks, counter) == hash_multisets_over(
            ranks,
            samples,
            mult as nat,
            counter.drop_last(),
        ));
        assert((mult as nat) * (count as nat) + counter_weight(counter.drop_last())
            == counter_weight(counter));
        assert forall|i: int|
            0 <= i < hash_multisets_spec(ranks, counter).len() implies 1
            <= #[trigger] hash_multisets_spec(ranks, counter)[i] <= pow(
            41,
            counter_weight(counter) as nat,
        ) by {
            let over = hash_multisets_over(ranks, samples, mult as nat, counter.drop_last());
            assert(hash_multisets_spec(ranks, counter)[i] == over[i]);
            assert(1 <= over[i] <= pow(
                41,
                ((mult as nat) * (count as nat) + counter_weight(counter.drop_last())) as nat,
            ));
        }
    }
}

/// Bounds for the per-sample enumeration.
proof fn lemma_hash_multisets_over_bounds(
    ranks: Seq<Rank>,
    samples: Seq<Seq<Rank>>,
    mult: nat,
    rest: Seq<(u32, u32)>,
    count: nat,
)
    requires
        forall|i: int| 0 <= i < samples.len() ==> (#[trigger] samples[i]).len() == count,
    ensures
        forall|i: int|
            0 <= i < hash_multisets_over(ranks, samples, mult, rest).len() ==> 1
                <= #[trigger] hash_multisets_over(ranks, samples, mult, rest)[i] <= pow(
                41,
                (mult * count + counter_weight(rest)) as nat,
            ),
    decreases rest.len(), samples.len() + 1,
{
    lemma_counter_weight_nonneg(rest);
    vstd::arithmetic::mul::lemma_mul_nonnegative(mult as int, count as int);
    if samples.len() > 0 {
        let hp = sample_hash(samples[0], mult);
        let sub = hash_multisets_spec(remaining_ranks(ranks, samples[0]), rest);
        let head = scaled(hp, sub);
        let tail = hash_multisets_over(ranks, samples.skip(1), mult, rest);
        lemma_hash_multisets_bounds(remaining_ranks(ranks, samples[0]), rest);
        lemma_sample_hash_bounds(samples[0], mult);
        assert(forall|i: int| 0 <= i < samples.skip(1).len() ==> (#[trigger] samples.skip(
            1,
        )[i]).len() == count) by {
            assert(forall|i: int|
                0 <= i < samples.skip(1).len() ==> samples.skip(1)[i] == samples[i + 1]);
        }
        lemma_hash_multisets_over_bounds(ranks, samples.skip(1), mult, rest, count);
        let wr = counter_weight(rest) as nat;
        let cm = (mult * count) as nat;
        assert forall|i: int| 0 <= i < head.len() implies 1 <= #[trigger] head[i] <= pow(
            41,
            (cm + wr) as nat,
        ) by {
            assert(head[i] == hp * sub[i]);
            assert(1 <= sub[i] <= pow(41, wr));
            assert(1 <= hp <= pow(41, cm));
            vstd::arithmetic::power::lemma_pow_adds(41, cm, wr);
            vstd::arithmetic::mul::lemma_mul_upper_bound(
                hp as int,
                pow(41, cm),
                sub[i] as int,
                pow(41, wr),
            );
            vstd::arithmetic::mul::lemma_mul_increases(hp as int, sub[i] as int);
        }
        assert forall|i: int|
            0 <= i < hash_multisets_over(ranks, samples, mult, rest).len() implies 1
            <= #[trigger] hash_multisets_over(ranks, samples, mult, rest)[i] <= pow(
            41,
            (mult * count + counter_weight(rest)) as nat,
        ) by {
            if i < head.len() {
                assert(hash_multisets_over(ranks, samples, mult, rest)[i] == head[i]);
            } else {
                assert(hash_multisets_over(ranks, samples, mult, rest)[i] == tail[i - head.len()]);
            }
        }
    }
}

/// A sample's contribution is between one and forty-one to the product of
/// its size and multiplicity.
pub proof fn lemma_sample_hash_bounds(sample: Seq<Rank>, mult: nat)
    ensures
        1 <= sample_hash(sample, mult) <= pow(41, mult * sample.len()),
{
    lemma_rank_product_bounds(sample);
    let rp = rank_product(sample);
    vstd::arithmetic::power::lemma_pow_positive(rp as int, mult);
    lemma_pow_base_monotone(rp, pow(41, sample.len()) as nat, mult);
    vstd::arithmetic::power::lemma_pow_positive(41, sample.len());
    vstd::arithmetic::power::lemma_pow_multiplies(41, sample.len(), mult);
    vstd::arithmetic::mul::lemma_mul_is_commutative(mult as int, sample.len() as int);
}

/// Forty-one to the twenty-third power still fits the 128-bit range.
pub proof fn lemma_pow_41_23_fits()
    ensures
        pow(41, 23) < u128::MAX,
{
    vstd::arithmetic::power::lemma_pow1(41);
    assert(pow(41, 2) == 41 * 41) by {
        vstd::arithmetic::power::lemma_pow_adds(41, 1, 1);
    }
    assert(pow(41, 4) == pow(41, 2) * pow(41, 2)) by {
        vstd::arithmetic::power::lemma_pow_adds(41, 2, 2);
    }
    assert(pow(41, 8) == pow(41, 4) * pow(41, 4)) by {
        vstd::arithmetic::power::lemma_pow_adds(41, 4, 4);
    }
    assert(pow(41, 16) == pow(41, 8) * pow(41, 8)) by {
        vstd::arithmetic::power::lemma_pow_adds(41, 8, 8);
    }
    assert(pow(41, 20) == pow(41, 16) * pow(41, 4)) by {
        vstd::arithmetic::power::lemma_pow_adds(41, 16, 4);
    }
    assert(pow(41, 22) == pow(41, 20) * pow(41, 2)) by {
        vstd::arithmetic::power::lemma_pow_adds(41, 20, 2);
    }
    assert(pow(41, 23) == pow(41, 22) * pow(41, 1)) by {
        vstd::arithmetic::power::lemma_pow_adds(41, 22, 1);
    }
}

fn reversed_ranks(v: &Vec<Rank>) -> (r: Vec<Rank>)
    ensures
        r@ == v@.reverse(),
{
    let mut r: Vec<Rank> = Vec::new();
    let mut i: usize = v.len();
    while i > 0
        invariant
            0 <= i <= v@.len(),
            r@.len() == v@.len() - i,
            forall|j: int| 0 <= j < r@.len() ==> r@[j] == v@[v@.len() - 1 - j],
        decreases i,
    {
        i = i - 1;
        r.push(v[i]);
    }
    proof {
        assert(r@ =~= v@.reverse());
    }
    r
}

fn rank_vec_contains(v: &Vec<Rank>, r: Rank) -> (b: bool)
    ensures
        b == v@.contains(r),
{
    let mut i: usize = 0;
    while i < v.len()
        invariant
            0 <= i <= v@.len(),
            forall|j: int| 0 <= j < i ==> v@[j] != r,
        decreases v@.len() - i,
    {
        if v[i] == r {
            return true;
        }
        i = i + 1;
    }
    false
}

fn remaining_of(ranks: &Vec<Rank>, sample: &Vec<Rank>) -> (r: Vec<Rank>)
    ensures
        r@ == remaining_ranks(ranks@, sample@),
{
    let mut r: Vec<Rank> = Vec::new();
    let mut i: usize = 0;
    proof {
        assert(ranks@.skip(0) =~= ranks@);
        assert(Seq::<Rank>::empty() + remaining_ranks(ranks@, sample@) =~= remaining_ranks(
            ranks@,
            sample@,
        ));
    }
    while i < ranks.len()
        invariant
            0 <= i <= ranks@.len(),
            remaining_ranks(ranks@, sample@) == r@ + remaining_ranks(
                ranks@.skip(i as int),
                sample@,
            ),
        decreases ranks@.len() - i,
    {
        let ghost r0 = r@;
        proof {
            assert(ranks@.skip(i as int)[0] == ranks@[i as int]);
            assert(ranks@.skip(i as int).skip(1) =~= ranks@.skip(i as int + 1));
        }
        if !rank_vec_contains(sample, ranks[i]) {
            r.push(ranks[i]);
            proof {
                assert((r0 + seq![ranks@[i as int]]) + remaining_ranks(
                    ranks@.skip(i as int + 1),
                    sample@,
                ) =~= r0 + (seq![ranks@[i as int]] + remaining_ranks(
                    ranks@.skip(i as int + 1),
                    sample@,
                )));
            }
        }
        i = i + 1;
    }
    proof {
        assert(ranks@.skip(i as int) =~= Seq::<Rank>::empty());
        assert(r@ + Seq::<Rank>::empty() =~= r@);
    }
    r
}

/// Computes a sample's contribution: its rank product raised to the
/// multiplicity.
#[verifier::loop_isolation(false)]
fn sample_hash_exec(sample: &Vec<Rank>, mult: u32) -> (hp: u128)
    requires
        (mult as int) * (sample@.len() as int) <= 23,
    ensures
        hp == sample_hash(sample@, mult as nat),
        1 <= hp <= pow(41, ((mult as int) * (sample@.len() as int)) as nat),
{
    let ghost n = sample@.len() as int;
    proof {
        lemma_sample_hash_bounds(sample@, mult as nat);
        vstd::arithmetic::mul::lemma_mul_is_commutative(mult as int, n);
        lemma_pow_41_23_fits();
        vstd::arithmetic::power::lemma_pow_increases(41, ((mult as int) * n) as nat, 23);
        vstd::arithmetic::mul::lemma_mul_nonnegative(mult as int, n);
    }
    if mult == 0 {
        proof {
            vstd::arithmetic::power::lemma_pow0(rank_product(sample@) as int);
        }
        return 1;
    }
    // With a positive multiplicity the sample is small, so its product fits.
    proof {
        lemma_rank_product_bounds(sample@);
        assert(n <= 23) by {
            if n > 0 {
                vstd::arithmetic::mul::lemma_mul_increases(mult as int, n);
            }
        }
        vstd::arithmetic::power::lemma_pow_increases(41, sample@.len(), 23);
    }
    let base = match hash_ranks(sample) {
        Option::Some(h) => h,
        Option::None => {
            // Unreachable: the product is at most forty-one to a small power.
            proof {
                assert(false);
            }
            1
        },
    };
    let mut hp: u128 = 1;
    let mut j: u32 = 0;
    proof {
        vstd::arithmetic::power::lemma_pow0(base as int);
        vstd::arithmetic::power::lemma_pow0(41);
    }
    while j < mult
        invariant
            0 <= j <= mult,
            (mult as int) * n <= 23,
            base == rank_product(sample@),
            1 <= base <= pow(41, sample@.len()),
            hp == pow(base as int, j as nat),
            1 <= hp <= pow(41, ((j as int) * n) as nat),
        decreases mult - j,
    {
        proof {
            vstd::arithmetic::mul::lemma_mul_nonnegative(j as int, n);
            vstd::arithmetic::mul::lemma_mul_inequality(j as int + 1, mult as int, n);
            vstd::arithmetic::mul::lemma_mul_is_distributive_add_other_way(n, j as int, 1);
            assert((j as int + 1) * n == (j as int) * n + n);
            vstd::arithmetic::power::lemma_pow_adds(41, ((j as int) * n) as nat, sample@.len());
            vstd::arithmetic::mul::lemma_mul_upper_bound(
                hp as int,
                pow(41, ((j as int) * n) as nat),
                base as int,
                pow(41, sample@.len()),
            );
            lemma_pow_41_23_fits();
            vstd::arithmetic::power::lemma_pow_increases(41, ((j as int + 1) * n) as nat, 23);
            assert(pow(base as int, (j + 1) as nat) == pow(base as int, j as nat) * base) by {
                vstd::arithmetic::power::lemma_pow_adds(base as int, j as nat, 1);
                vstd::arithmetic::power::lemma_pow1(base as int);
            }
            vstd::arithmetic::mul::lemma_mul_strictly_positive(hp as int, base as int);
        }
        hp = hp * base;
        j = j + 1;
    }
    hp
}

/// The mathematical values of a fingerprint vector.
pub open spec fn nat_seq(s: Seq<u128>) -> Seq<nat> {
    s.map_values(|h: u128| h as nat)
}

/// Enumerates the fingerprints of all hands that a multiplicity counter
/// describes over the given ranks, strongest sample first.
pub fn hash_multisets(ranks: &Vec<Rank>, counter: &Vec<(u32, u32)>) -> (r: Vec<u128>)
    requires
        counter_weight(counter@) <= 23,
    ensures
        nat_seq(r@) == hash_multisets_spec(ranks@, counter@),
{
    proof {
        assert(counter@.take(counter@.len() as int) =~= counter@);
    }
    let r = hash_multisets_rec(ranks, counter, counter.len());
    r
}

#[verifier::loop_isolation(false)]
fn hash_multisets_rec(ranks: &Vec<Rank>, counter: &Vec<(u32, u32)>, d: usize) -> (r: Vec<u128>)
    requires
        d <= counter@.len(),
        counter_weight(counter@.take(d as int)) <= 23,
    ensures
        nat_seq(r@) == hash_multisets_spec(ranks@, counter@.take(d as int)),
    decreases d,
{
    let ghost cnt = counter@.take(d as int);
    if d == 0 {
        let mut r: Vec<u128> = Vec::new();
        r.push(1);
        proof {
            assert(cnt =~= Seq::<(u32, u32)>::empty());
            assert(nat_seq(r@) =~= seq![1nat]);
        }
        return r;
    }
    let mult = counter[d - 1].0;
    let count = counter[d - 1].1;
    let ghost rest = counter@.take(d as int - 1);
    proof {
        assert(cnt.last() == counter@[d as int - 1]);
        assert(cnt.drop_last() =~= rest);
        lemma_counter_weight_nonneg(rest);
        vstd::arithmetic::mul::lemma_mul_nonnegative(mult as int, count as int);
        assert(counter_weight(cnt) == counter_weight(rest) + (mult as int) * (count as int));
    }
    let rev = reversed_ranks(ranks);
    let samples = combinations(&rev, count as usize);
    let ghost all_samples = samples@.map_values(|v: Vec<Rank>| v@);
    proof {
        lemma_combinations_elem_len(ranks@.reverse(), count as nat);
    }
    let mut out: Vec<u128> = Vec::new();
    let mut si: usize = 0;
    proof {
        assert(all_samples.skip(0) =~= all_samples);
        assert(Seq::<nat>::empty() + hash_multisets_over(ranks@, all_samples, mult as nat, rest)
            =~= hash_multisets_over(ranks@, all_samples, mult as nat, rest));
        assert(nat_seq(out@) =~= Seq::<nat>::empty());
    }
    while si < samples.len()
        invariant
            0 <= si <= samples@.len(),
            all_samples == samples@.map_values(|v: Vec<Rank>| v@),
            all_samples == combinations_spec(ranks@.reverse(), count as nat),
            counter_weight(rest) >= 0,
            (mult as int) * (count as int) >= 0,
            counter_weight(rest) + (mult as int) * (count as int) <= 23,
            forall|i: int| 0 <= i < all_samples.len() ==> (#[trigger] all_samples[i]).len()
                == count,
            rest == counter@.take(d as int - 1),
            d <= counter@.len(),
            hash_multisets_over(ranks@, all_samples, mult as nat, rest) == nat_seq(out@)
                + hash_multisets_over(ranks@, all_samples.skip(si as int), mult as nat, rest),
        decreases samples@.len() - si,
    {
        let sample: &Vec<Rank> = &samples[si];
        proof {
            assert(all_samples[si as int] == sample@);
            assert(all_samples.skip(si as int)[0] == sample@);
            assert(all_samples.skip(si as int).skip(1) =~= all_samples.skip(si as int + 1));
            assert((mult as int) * (sample@.len() as int) <= 23);
        }
        let hp = sample_hash_exec(sample, mult);
        let rem = remaining_of(ranks, sample);
        let sub = hash_multisets_rec(&rem, counter, d - 1);
        let ghost sub_spec = hash_multisets_spec(rem@, rest);
        let ghost mapped = scaled(sample_hash(sample@, mult as nat), sub_spec);
        let ghost out0 = out@;
        let mut pi: usize = 0;
        proof {
            lemma_hash_multisets_bounds(rem@, rest);
            assert(mapped.take(0) =~= Seq::<nat>::empty());
            assert(nat_seq(out0) + Seq::<nat>::empty() =~= nat_seq(out0));
        }
        while pi < sub.len()
            invariant
                0 <= pi <= sub@.len(),
                forall|i: int|
                    0 <= i < sub_spec.len() ==> 1 <= #[trigger] sub_spec[i] <= pow(
                        41,
                        counter_weight(rest) as nat,
                    ),
                nat_seq(out@) == nat_seq(out0) + mapped.take(pi as int),
            decreases sub@.len() - pi,
        {
            let p = sub[pi];
            proof {
                assert(sub_spec[pi as int] == p as nat);
                assert(1 <= p as nat <= pow(41, counter_weight(rest) as nat));
                vstd::arithmetic::power::lemma_pow_adds(
                    41,
                    ((mult as int) * (count as int)) as nat,
                    counter_weight(rest) as nat,
                );
                vstd::arithmetic::mul::lemma_mul_upper_bound(
                    hp as int,
                    pow(41, ((mult as int) * (count as int)) as nat),
                    p as int,
                    pow(41, counter_weight(rest) as nat),
                );
                lemma_pow_41_23_fits();
                vstd::arithmetic::power::lemma_pow_increases(
                    41,
                    ((mult as int) * (count as int) + counter_weight(rest)) as nat,
                    23,
                );
                vstd::arithmetic::mul::lemma_mul_nonnegative(hp as int, p as int);
            }
            let ghost out_prev = out@;
            out.push(hp * p);
            proof {
                assert(mapped[pi as int] == (sample_hash(sample@, mult as nat) * sub_spec[pi as int]) as nat);
                assert(mapped.take(pi as int + 1) =~= mapped.take(pi as int).push(
                    mapped[pi as int],
                ));
                assert(out@ == out_prev.push((hp * p) as u128));
                assert forall|ii: int| 0 <= ii < out@.len() implies nat_seq(out@)[ii] == (
                nat_seq(out0) + mapped.take(pi as int + 1))[ii] by {
                    assert(nat_seq(out@)[ii] == out@[ii] as nat);
                    if ii < out_prev.len() {
                        assert(out@[ii] == out_prev[ii]);
                        assert(nat_seq(out_prev)[ii] == out_prev[ii] as nat);
                        assert(nat_seq(out_prev)[ii] == (nat_seq(out0) + mapped.take(
                            pi as int,
                        ))[ii]);
                    } else {
                        assert(ii == out_prev.len());
                        assert(out@[ii] == (hp * p) as u128);
                        assert((nat_seq(out0) + mapped.take(pi as int + 1))[ii] == mapped[
                            pi as int
                        ]);
                    }
                }
                assert(nat_seq(out@) =~= nat_seq(out0) + mapped.take(pi as int + 1));
            }
            pi = pi + 1;
        }
        proof {
            assert(mapped.take(pi as int) =~= mapped);
            assert(hash_multisets_over(ranks@, all_samples.skip(si as int), mult as nat, rest)
                == mapped + hash_multisets_over(
                ranks@,
                all_samples.skip(si as int + 1),
                mult as nat,
                rest,
            ));
            assert((nat_seq(out0) + mapped) + hash_multisets_over(
                ranks@,
                all_samples.skip(si as int + 1),
                mult as nat,
                rest,
            ) =~= nat_seq(out0) + (mapped + hash_multisets_over(
                ranks@,
                all_samples.skip(si as int + 1),
                mult as nat,
                rest,
            )));
        }
        si = si + 1;
    }
    proof {
        assert(all_samples.skip(si as int) =~= Seq::<Seq<Rank>>::empty());
        assert(nat_seq(out@) + Seq::<nat>::empty() =~= nat_seq(out@));
        assert(hash_multisets_spec(ranks@, cnt) == hash_multisets_over(
            ranks@,
            all_samples,
            mult as nat,
            rest,
        ));
    }
    out
}

/// No row matching the key means the first-match position is minus one.
pub proof fn lemma_row_index_of_none(rows: Seq<TableRow>, key: u128, suited: bool)
    requires
        forall|i: int| 0 <= i < rows.len() ==> !((#[trigger] rows[i]).key == key && rows[i].suited
            == suited),
    ensures
        row_index_of(rows, key, suited) == -1,
    decreases rows.len(),
{
    if rows.len() > 0 {
        assert(forall|i: int| 0 <= i < rows.skip(1).len() ==> rows.skip(1)[i] == rows[i + 1]);
        lemma_row_index_of_none(rows.skip(1), key, suited);
    }
}

/// A first match at position `i` pins the first-match position to `i`.
pub proof fn lemma_row_index_of_found(rows: Seq<TableRow>, key: u128, suited: bool, i: int)
    requires
        0 <= i < rows.len(),
        rows[i].key == key && rows[i].suited == suited,
        forall|j: int| 0 <= j < i ==> !((#[trigger] rows[j]).key == key && rows[j].suited
            == suited),
    ensures
        row_index_of(rows, key, suited) == i,
    decreases rows.len(),
{
    if i > 0 {
        assert(forall|j: int| 0 <= j < rows.skip(1).len() ==> rows.skip(1)[j] == rows[j + 1]);
        lemma_row_index_of_found(rows.skip(1), key, suited, i - 1);
    }
}

/// The whole table after adding one entry under each of the given flags.
pub open spec fn add_suits_spec(rows: Seq<TableRow>, key: u128, suits: Seq<bool>, e: Entry) -> Seq<
    TableRow,
>
    decreases suits.len(),
{
    if suits.len() == 0 {
        rows
    } else {
        add_suits_spec(rows_insert(rows, key, suits[0], e), key, suits.skip(1), e)
    }
}

/// The builder after registering one fingerprint: the running index is
/// assigned under every flag, and then advances (stopping at the greatest
/// representable value).
pub open spec fn builder_add_entry(
    rows: Seq<TableRow>,
    count: int,
    key: u128,
    suits: Seq<bool>,
    label: Label,
) -> (Seq<TableRow>, int) {
    let e = Entry { index: count as i32, label };
    (
        add_suits_spec(rows, key, suits, e),
        if count < i32::MAX {
            count + 1
        } else {
            count
        },
    )
}

/// The builder after registering a list of fingerprints from its last
/// element down to its first.
pub open spec fn builder_add_rev(
    rows: Seq<TableRow>,
    count: int,
    hashes: Seq<u128>,
    suits: Seq<bool>,
    label: Label,
) -> (Seq<TableRow>, int)
    decreases hashes.len(),
{
    if hashes.len() == 0 {
        (rows, count)
    } else {
        let step = builder_add_entry(rows, count, hashes.last(), suits, label);
        builder_add_rev(step.0, step.1, hashes.drop_last(), suits, label)
    }
}

/// The builder after registering a list of fingerprints first to last.
pub open spec fn builder_add_fwd(
    rows: Seq<TableRow>,
    count: int,
    hashes: Seq<u128>,
    suits: Seq<bool>,
    label: Label,
) -> (Seq<TableRow>, int)
    decreases hashes.len(),
{
    if hashes.len() == 0 {
        (rows, count)
    } else {
        let step = builder_add_entry(rows, count, hashes[0], suits, label);
        builder_add_fwd(step.0, step.1, hashes.skip(1), suits, label)
    }
}

/// The machine representation of a fingerprint list.
pub open spec fn as_u128_seq(s: Seq<nat>) -> Seq<u128> {
    Seq::new(s.len(), |i: int| s[i] as u128)
}

/// Every index a builder has handed out lies between zero and its running
/// count.
pub open spec fn builder_wf(rows: Seq<TableRow>, count: int) -> bool {
    &&& 0 <= count <= i32::MAX
    &&& forall|i: int| 0 <= i < rows.len() ==> 0 <= (#[trigger] rows[i]).entry.index <= count
}

/// The straight fingerprints of a rank order: the wheel first, then each
/// contiguous window from the low end up.
pub open spec fn wheel_ranks(order: Seq<Rank>, count: nat) -> Seq<Rank> {
    seq![order.last()] + order.take(count - 1)
}

pub open spec fn window_hashes(order: Seq<Rank>, count: nat, i: int) -> Seq<nat>
    decreases order.len() - count - i + 1,
{
    if i < 0 || i > order.len() - count {
        Seq::empty()
    } else {
        seq![rank_product(order.subrange(i, i + count))] + window_hashes(order, count, i + 1)
    }
}

pub open spec fn straight_hashes_spec(order: Seq<Rank>, count: nat) -> Seq<nat> {
    seq![rank_product(wheel_ranks(order, count))] + window_hashes(order, count, 0)
}

/// Some row carries the given strength index.
pub open spec fn has_index(rows: Seq<TableRow>, v: int) -> bool {
    exists|j: int| 0 <= j < rows.len() && (#[trigger] rows[j]).entry.index == v
}

/// The packed table matches the registered one row for row: same keys,
/// flags, and labels, with non-negative indices in the same relative order
/// (ties included).
pub open spec fn rows_reindexed(es: Seq<TableRow>, rows: Seq<TableRow>) -> bool {
    &&& rows.len() == es.len()
    &&& forall|i: int|
        0 <= i < rows.len() ==> (#[trigger] rows[i]).key == es[i].key && rows[i].suited
            == es[i].suited && rows[i].entry.label == es[i].entry.label
    &&& forall|i: int, j: int|
        0 <= i < rows.len() && 0 <= j < rows.len() ==> ((#[trigger] rows[i]).entry.index
            < (#[trigger] rows[j]).entry.index <==> es[i].entry.index < es[j].entry.index)
    &&& forall|i: int| 0 <= i < rows.len() ==> (#[trigger] rows[i]).entry.index >= 0
}

/// The table's indices are dense: zero occurs, and below every occurring
/// index its predecessor occurs.
pub open spec fn rows_dense(rows: Seq<TableRow>) -> bool {
    &&& rows.len() > 0 ==> has_index(rows, 0)
    &&& forall|i: int|
        0 <= i < rows.len() && (#[trigger] rows[i]).entry.index > 0 ==> has_index(
            rows,
            rows[i].entry.index - 1,
        )
}

/// Accumulates hand entries for a lookup table: each registered fingerprint
/// receives the next index in order of registration, and `build` finally
/// packs the indices densely.
pub struct LookupBuilder {
    pub entries: Vec<TableRow>,
    pub entry_count: i32,
}

impl Default for LookupBuilder {
    /// An empty builder.
    fn default() -> (r: Self)
        ensures
            r.entries@ == Seq::<TableRow>::empty(),
            r.entry_count == 0,
    {
        LookupBuilder { entries: Vec::new(), entry_count: 0 }
    }
}

impl LookupBuilder {
    /// How many entries have been registered.
    pub open spec fn count(self) -> int {
        self.entry_count as int
    }

    /// The builder hands out indices from zero up to its running count.
    pub open spec fn wf(self) -> bool {
        builder_wf(self.entries@, self.count())
    }

    fn insert_row(rows: &mut Vec<TableRow>, key: u128, suited: bool, e: Entry)
        ensures
            final(rows)@ == rows_insert(old(rows)@, key, suited, e),
    {
        let ghost rows0 = rows@;
        let mut i: usize = 0;
        while i < rows.len()
            invariant
                0 <= i <= rows@.len(),
                rows@ == rows0,
                rows0 == old(rows)@,
                forall|j: int| 0 <= j < i ==> !((#[trigger] rows@[j]).key == key && rows@[j].suited
                    == suited),
            decreases rows@.len() - i,
        {
            if rows[i].key == key && rows[i].suited == suited {
                proof {
                    lemma_row_index_of_found(rows0, key, suited, i as int);
                }
                rows.set(i, TableRow { key, suited, entry: e });
                return ;
            }
            i = i + 1;
        }
        proof {
            lemma_row_index_of_none(rows0, key, suited);
        }
        rows.push(TableRow { key, suited, entry: e });
    }

    /// Registers one fingerprint under each of the given suited flags; all
    /// flags share one index.
    pub fn add_entry(&mut self, hash: u128, suitednesses: &Vec<bool>, label: Label)
        ensures
            (final(self).entries@, final(self).count()) == builder_add_entry(
                old(self).entries@,
                old(self).count(),
                hash,
                suitednesses@,
                label,
            ),
            old(self).wf() ==> final(self).wf(),
    {
        let e = Entry { index: self.entry_count, label };
        let ghost count0 = self.count();
        if self.entry_count < i32::MAX {
            self.entry_count = self.entry_count + 1;
        }
        let ghost count1 = self.count();
        let mut i: usize = 0;
        proof {
            assert(suitednesses@.skip(0) =~= suitednesses@);
        }
        while i < suitednesses.len()
            invariant
                0 <= i <= suitednesses@.len(),
                add_suits_spec(old(self).entries@, hash, suitednesses@, e) == add_suits_spec(
                    self.entries@,
                    hash,
                    suitednesses@.skip(i as int),
                    e,
                ),
                self.count() == count1,
                count1 == (if count0 < i32::MAX { count0 + 1 } else { count0 }),
                count0 == old(self).count(),
                e.index == count0,
            decreases suitednesses@.len() - i,
        {
            proof {
                assert(suitednesses@.skip(i as int)[0] == suitednesses@[i as int]);
                assert(suitednesses@.skip(i as int).skip(1) =~= suitednesses@.skip(i as int + 1));
            }
            Self::insert_row(&mut self.entries, hash, suitednesses[i], e);
            i = i + 1;
        }
        proof {
            assert(suitednesses@.skip(i as int) =~= Seq::<bool>::empty());
            if old(self).wf() {
                lemma_add_suits_wf(old(self).entries@, count0, hash, suitednesses@, e);
                lemma_builder_wf_weaken(self.entries@, count0, self.count());
            }
        }
    }

    /// Registers every hand shape that a multiplicity counter describes over
    /// the rank order, weakest hand first: the enumeration runs strongest
    /// first and is consumed from its far end.
    pub fn add_multisets(
        &mut self,
        order: &Vec<Rank>,
        counter: &Vec<(u32, u32)>,
        suitednesses: &Vec<bool>,
        label: Label,
    )
        requires
            counter_weight(counter@) <= 23,
        ensures
            (final(self).entries@, final(self).count()) == builder_add_rev(
                old(self).entries@,
                old(self).count(),
                as_u128_seq(hash_multisets_spec(order@, counter@)),
                suitednesses@,
                label,
            ),
            old(self).wf() ==> final(self).wf(),
    {
        let hashes = hash_multisets(order, counter);
        let ghost hseq = as_u128_seq(hash_multisets_spec(order@, counter@));
        proof {
            lemma_hash_multisets_bounds(order@, counter@);
            assert(hseq.len() == hashes@.len());
            assert(forall|i: int| 0 <= i < hashes@.len() ==> hseq[i] == #[trigger] hashes@[i]);
            assert(hseq =~= hashes@);
            assert(hseq.take(hashes@.len() as int) =~= hseq);
        }
        let mut j: usize = hashes.len();
        while j > 0
            invariant
                0 <= j <= hashes@.len(),
                hseq == hashes@,
                builder_add_rev(
                    old(self).entries@,
                    old(self).count(),
                    hseq,
                    suitednesses@,
                    label,
                ) == builder_add_rev(
                    self.entries@,
                    self.count(),
                    hseq.take(j as int),
                    suitednesses@,
                    label,
                ),
                old(self).wf() ==> self.wf(),
            decreases j,
        {
            j = j - 1;
            proof {
                assert(hseq.take(j as int + 1).last() == hseq[j as int]);
                assert(hseq.take(j as int + 1).drop_last() =~= hseq.take(j as int));
            }
            self.add_entry(hashes[j], suitednesses, label);
        }
        proof {
            assert(hseq.take(0) =~= Seq::<u128>::empty());
        }
    }

    /// Registers the straights of the rank order: the wheel first (the
    /// weakest straight), then each window from the low end up.
    pub fn add_straights(
        &mut self,
        order: &Vec<Rank>,
        count: usize,
        suitednesses: &Vec<bool>,
        label: Label,
    )
        requires
            1 <= count <= order@.len(),
            count <= 23,
            order@.len() < usize::MAX,
        ensures
            (final(self).entries@, final(self).count()) == builder_add_fwd(
                old(self).entries@,
                old(self).count(),
                as_u128_seq(straight_hashes_spec(order@, count as nat)),
                suitednesses@,
                label,
            ),
            old(self).wf() ==> final(self).wf(),
    {
        let ghost hseq = as_u128_seq(straight_hashes_spec(order@, count as nat));
        proof {
            lemma_straight_hashes_bounds(order@, count as nat);
            lemma_pow_41_23_fits();
            vstd::arithmetic::power::lemma_pow_increases(41, count as nat, 23);
        }
        // The wheel: the highest rank followed by the lowest `count - 1`.
        let mut wheel: Vec<Rank> = Vec::new();
        wheel.push(order[order.len() - 1]);
        let mut wi: usize = 0;
        while wi < count - 1
            invariant
                0 <= wi <= count - 1,
                count <= order@.len(),
                wheel@.len() == wi + 1,
                wheel@[0] == order@.last(),
                forall|m: int| 1 <= m <= wi ==> wheel@[m] == order@[m - 1],
            decreases count - 1 - wi,
        {
            wheel.push(order[wi]);
            wi = wi + 1;
        }
        proof {
            assert(wheel@ =~= wheel_ranks(order@, count as nat));
        }
        let wheel_hash = match hash_ranks(&wheel) {
            Option::Some(h) => h,
            Option::None => {
                // Unreachable: a straight's product is small.
                proof {
                    lemma_rank_product_bounds(wheel@);
                    vstd::arithmetic::power::lemma_pow_increases(41, wheel@.len(), 23);
                }
                1
            },
        };
        proof {
            assert(hseq[0] == wheel_hash);
            assert(hseq.skip(0) =~= hseq);
        }
        let ghost state0 = (self.entries@, self.count());
        self.add_entry(wheel_hash, suitednesses, label);
        proof {
            assert(hseq.skip(0)[0] == hseq[0]);
            assert(hseq.skip(0).skip(1) =~= hseq.skip(1));
        }
        // The windows, lowest first.
        let mut i: usize = 0;
        while i + count <= order.len()
            invariant
                0 <= i,
                i <= order@.len() - count + 1,
                order@.len() < usize::MAX,
                count >= 1,
                count <= 23,
                count <= order@.len(),
                hseq == as_u128_seq(straight_hashes_spec(order@, count as nat)),
                hseq.len() == order@.len() - count + 2,
                builder_add_fwd(
                    old(self).entries@,
                    old(self).count(),
                    hseq,
                    suitednesses@,
                    label,
                ) == builder_add_fwd(
                    self.entries@,
                    self.count(),
                    hseq.skip(i as int + 1),
                    suitednesses@,
                    label,
                ),
                old(self).wf() ==> self.wf(),
            decreases order@.len() - count - i + 1,
        {
            let mut window: Vec<Rank> = Vec::new();
            let mut k: usize = i;
            while k < i + count
                invariant
                    i <= k <= i + count,
                    i + count <= order@.len(),
                    order@.len() < usize::MAX,
                    window@.len() == k - i,
                    forall|m: int| 0 <= m < window@.len() ==> window@[m] == order@[i + m],
                decreases i + count - k,
            {
                window.push(order[k]);
                k = k + 1;
            }
            proof {
                assert(window@ =~= order@.subrange(i as int, i as int + count));
                lemma_rank_product_bounds(window@);
                vstd::arithmetic::power::lemma_pow_increases(41, window@.len(), 23);
                lemma_pow_41_23_fits();
            }
            let wh = match hash_ranks(&window) {
                Option::Some(h) => h,
                Option::None => {
                    proof {
                        assert(false);
                    }
                    1
                },
            };
            proof {
                lemma_window_hash_at(order@, count as nat, i as int);
                assert(hseq.skip(i as int + 1)[0] == hseq[i as int + 1]);
                assert(hseq[i as int + 1] == wh);
                assert(hseq.skip(i as int + 1).skip(1) =~= hseq.skip(i as int + 2));
            }
            self.add_entry(wh, suitednesses, label);
            i = i + 1;
        }
        proof {
            assert(hseq.skip(i as int + 1) =~= Seq::<u128>::empty());
        }
    }

    /// Packs the handed-out indices into a dense range: the rows keep their
    /// keys, flags, and labels, relative strength (and ties) are preserved,
    /// and the new indices start at zero with no gaps.
    #[verifier::rlimit(100)]
    #[verifier::spinoff_prover]
    pub fn build(self) -> (rows: Vec<TableRow>)
        requires
            self.wf(),
        ensures
            rows_reindexed(self.entries@, rows@),
            rows_dense(rows@),
    {
        let n = self.entries.len();
        if n == 0 {
            let rows: Vec<TableRow> = Vec::new();
            proof {
                assert(rows_reindexed(self.entries@, rows@));
                assert(rows_dense(rows@));
            }
            return rows;
        }
        let m: usize = (self.entry_count as usize) + 1;
        let present = Self::mark_present(&self.entries, m);
        let remap = Self::build_remap(&present);
        let rows = Self::rewrite_rows(&self.entries, &remap, Ghost(present@));
        proof {
            lemma_build_order(self.entries@, rows@, present@);
            lemma_build_dense(self.entries@, rows@, present@);
        }
        rows
    }

    /// Marks which strength indices occur among the rows.
    fn mark_present(entries: &Vec<TableRow>, m: usize) -> (present: Vec<bool>)
        requires
            forall|i: int| 0 <= i < entries@.len() ==> 0 <= (#[trigger] entries@[i]).entry.index
                < m,
        ensures
            present@.len() == m,
            forall|j: int| 0 <= j < entries@.len() ==> present@[(#[trigger] entries@[j]).entry.index
                as int],
            forall|v: int|
                0 <= v < m && (#[trigger] present@[v]) ==> exists|j: int|
                    0 <= j < entries@.len() && (#[trigger] entries@[j]).entry.index == v,
    {
        let mut present: Vec<bool> = Vec::new();
        while present.len() < m
            invariant
                present@.len() <= m,
                forall|v: int| 0 <= v < present@.len() ==> !(#[trigger] present@[v]),
            decreases m - present@.len(),
        {
            present.push(false);
        }
        let n = entries.len();
        let mut i: usize = 0;
        while i < n
            invariant
                0 <= i <= n,
                n == entries@.len(),
                present@.len() == m,
                forall|j: int| 0 <= j < n ==> 0 <= (#[trigger] entries@[j]).entry.index < m,
                forall|j: int| 0 <= j < i ==> present@[(#[trigger] entries@[j]).entry.index as int],
                forall|v: int|
                    0 <= v < m && (#[trigger] present@[v]) ==> exists|j: int|
                        0 <= j < i && (#[trigger] entries@[j]).entry.index == v,
            decreases n - i,
        {
            let idx = entries[i].entry.index;
            let ghost present0 = present@;
            present.set(idx as usize, true);
            proof {
                assert(present@[idx as int]);
                assert forall|v: int|
                    0 <= v < m && (#[trigger] present@[v]) implies exists|j: int|
                        0 <= j < i + 1 && (#[trigger] entries@[j]).entry.index == v by {
                    if v == idx as int {
                        assert(entries@[i as int].entry.index == v);
                    } else {
                        assert(present0[v]);
                        let j = choose|j: int|
                            0 <= j < i && (#[trigger] entries@[j]).entry.index == v;
                        assert(0 <= j < i + 1 && entries@[j].entry.index == v);
                    }
                }
            }
            i = i + 1;
        }
        present
    }

    /// The dense rank of each index: how many marked indices lie below it.
    fn build_remap(present: &Vec<bool>) -> (remap: Vec<usize>)
        ensures
            remap@.len() == present@.len(),
            forall|w: int| 0 <= w < present@.len() ==> (#[trigger] remap@[w]) as int
                == count_present(present@, w),
    {
        let m = present.len();
        let mut remap: Vec<usize> = Vec::new();
        let mut c: usize = 0;
        let mut v: usize = 0;
        while v < m
            invariant
                0 <= v <= m,
                m == present@.len(),
                remap@.len() == v,
                c as int == count_present(present@, v as int),
                0 <= c <= v,
                forall|w: int| 0 <= w < v ==> (#[trigger] remap@[w]) as int == count_present(
                    present@,
                    w,
                ),
            decreases m - v,
        {
            remap.push(c);
            if present[v] {
                proof {
                    lemma_count_present_bounds(present@, v as int);
                }
                c = c + 1;
            }
            v = v + 1;
        }
        remap
    }

    /// Rewrites every row with its dense index.
    fn rewrite_rows(entries: &Vec<TableRow>, remap: &Vec<usize>, p: Ghost<Seq<bool>>) -> (rows: Vec<
        TableRow,
    >)
        requires
            forall|i: int| 0 <= i < entries@.len() ==> 0 <= (#[trigger] entries@[i]).entry.index
                < remap@.len(),
            remap@.len() == p@.len(),
            remap@.len() <= i32::MAX + 1,
            forall|w: int| 0 <= w < remap@.len() ==> (#[trigger] remap@[w]) as int == count_present(
                p@,
                w,
            ),
        ensures
            rows@.len() == entries@.len(),
            forall|j: int|
                0 <= j < rows@.len() ==> (#[trigger] rows@[j]).key == entries@[j].key
                    && rows@[j].suited == entries@[j].suited && rows@[j].entry.label
                    == entries@[j].entry.label,
            forall|j: int|
                0 <= j < rows@.len() ==> (#[trigger] rows@[j]).entry.index as int == count_present(
                    p@,
                    entries@[j].entry.index as int,
                ),
    {
        let n = entries.len();
        let mut rows: Vec<TableRow> = Vec::new();
        let mut i: usize = 0;
        while i < n
            invariant
                0 <= i <= n,
                n == entries@.len(),
                forall|j: int| 0 <= j < n ==> 0 <= (#[trigger] entries@[j]).entry.index
                    < remap@.len(),
                remap@.len() == p@.len(),
                remap@.len() <= i32::MAX + 1,
                forall|w: int| 0 <= w < remap@.len() ==> (#[trigger] remap@[w]) as int
                    == count_present(p@, w),
                rows@.len() == i,
                forall|j: int|
                    0 <= j < i ==> (#[trigger] rows@[j]).key == entries@[j].key && rows@[j].suited
                        == entries@[j].suited && rows@[j].entry.label == entries@[j].entry.label,
                forall|j: int|
                    0 <= j < i ==> (#[trigger] rows@[j]).entry.index as int == count_present(
                        p@,
                        entries@[j].entry.index as int,
                    ),
            decreases n - i,
        {
            let row = entries[i];
            let new_index = remap[row.entry.index as usize];
            proof {
                lemma_count_present_bounds(p@, row.entry.index as int);
            }
            rows.push(
                TableRow {
                    key: row.key,
                    suited: row.suited,
                    entry: Entry { index: new_index as i32, label: row.entry.label },
                },
            );
            i = i + 1;
        }
        rows
    }
}

/// How many marked positions lie strictly below `v`.
pub open spec fn count_present(p: Seq<bool>, v: int) -> int
    decreases v,
{
    if v <= 0 {
        0
    } else {
        count_present(p, v - 1) + if p[v - 1] {
            1int
        } else {
            0int
        }
    }
}

/// The count of marked positions below `v` is between zero and `v`.
pub proof fn lemma_count_present_bounds(p: Seq<bool>, v: int)
    requires
        v >= 0,
    ensures
        0 <= count_present(p, v) <= v,
    decreases v,
{
    if v > 0 {
        lemma_count_present_bounds(p, v - 1);
    }
}

/// Counting past a marked position strictly increases the count.
pub proof fn lemma_count_present_strict(p: Seq<bool>, u: int, v: int)
    requires
        0 <= u < v,
        p[u],
    ensures
        count_present(p, u) < count_present(p, v),
    decreases v,
{
    if v == u + 1 {
    } else {
        lemma_count_present_strict(p, u, v - 1);
    }
}

/// The count never decreases as the bound grows.
pub proof fn lemma_count_present_monotone(p: Seq<bool>, u: int, v: int)
    requires
        0 <= u <= v,
    ensures
        count_present(p, u) <= count_present(p, v),
    decreases v,
{
    if u < v {
        lemma_count_present_monotone(p, u, v - 1);
    }
}

/// Every count value below `count_present(p, v)` is attained at some marked
/// position below `v`.
pub proof fn lemma_count_present_attained(p: Seq<bool>, v: int, c: int)
    requires
        v >= 0,
        0 <= c < count_present(p, v),
    ensures
        exists|u: int| 0 <= u < v && p[u] && count_present(p, u) == c,
    decreases v,
{
    lemma_count_present_bounds(p, v);
    if c < count_present(p, v - 1) {
        lemma_count_present_attained(p, v - 1, c);
        let u = choose|u: int| 0 <= u < v - 1 && p[u] && count_present(p, u) == c;
        assert(0 <= u < v && p[u] && count_present(p, u) == c);
    } else {
        assert(p[v - 1] && count_present(p, v - 1) == c);
    }
}

/// Straight fingerprints all fit in the range of a `count`-card product.
pub proof fn lemma_straight_hashes_bounds(order: Seq<Rank>, count: nat)
    requires
        1 <= count <= order.len(),
    ensures
        straight_hashes_spec(order, count).len() == order.len() - count + 2,
        forall|i: int|
            0 <= i < straight_hashes_spec(order, count).len() ==> 1
                <= #[trigger] straight_hashes_spec(order, count)[i] <= pow(41, count),
{
    let ws = straight_hashes_spec(order, count);
    lemma_rank_product_bounds(wheel_ranks(order, count));
    assert(wheel_ranks(order, count).len() == count);
    lemma_window_hashes_props(order, count, 0);
    assert(ws.len() == 1 + window_hashes(order, count, 0).len());
    assert forall|i: int| 0 <= i < ws.len() implies 1 <= #[trigger] ws[i] <= pow(41, count) by {
        if i > 0 {
            assert(ws[i] == window_hashes(order, count, 0)[i - 1]);
        }
    }
}

/// Window hash lists have one entry per window, each a `count`-card product.
proof fn lemma_window_hashes_props(order: Seq<Rank>, count: nat, i: int)
    requires
        1 <= count <= order.len(),
        i >= 0,
    ensures
        window_hashes(order, count, i).len() == (if i <= order.len() - count {
            order.len() - count - i + 1
        } else {
            0
        }),
        forall|j: int|
            0 <= j < window_hashes(order, count, i).len() ==> 1 <= #[trigger] window_hashes(
                order,
                count,
                i,
            )[j] <= pow(41, count),
    decreases order.len() - count - i + 1,
{
    if 0 <= i <= order.len() - count {
        lemma_window_hashes_props(order, count, i + 1);
        lemma_rank_product_bounds(order.subrange(i, i + count));
        assert(order.subrange(i, i + count).len() == count);
    }
}

/// The straight list's entry past the wheel is the matching window product.
proof fn lemma_window_hash_at(order: Seq<Rank>, count: nat, i: int)
    requires
        1 <= count <= order.len(),
        0 <= i <= order.len() - count,
    ensures
        straight_hashes_spec(order, count)[i + 1] == rank_product(order.subrange(i, i + count)),
    decreases i,
{
    lemma_window_hashes_props(order, count, 0);
    lemma_window_at(order, count, 0, i);
    assert(straight_hashes_spec(order, count)[i + 1] == window_hashes(order, count, 0)[i]);
}

/// From the pointwise reindexing facts, the packed table preserves order.
#[verifier::rlimit(100)]
#[verifier::spinoff_prover]
proof fn lemma_build_order(es: Seq<TableRow>, rows: Seq<TableRow>, p: Seq<bool>)
    requires
        rows.len() == es.len(),
        forall|i: int| 0 <= i < es.len() ==> 0 <= (#[trigger] es[i]).entry.index < p.len(),
        forall|j: int| 0 <= j < es.len() ==> p[(#[trigger] es[j]).entry.index as int],
        forall|j: int|
            0 <= j < rows.len() ==> (#[trigger] rows[j]).key == es[j].key && rows[j].suited
                == es[j].suited && rows[j].entry.label == es[j].entry.label,
        forall|j: int|
            0 <= j < rows.len() ==> (#[trigger] rows[j]).entry.index as int == count_present(
                p,
                es[j].entry.index as int,
            ),
    ensures
        rows_reindexed(es, rows),
{
    assert forall|i: int, j: int|
        0 <= i < rows.len() && 0 <= j < rows.len() implies ((#[trigger] rows[i]).entry.index
        < (#[trigger] rows[j]).entry.index <==> es[i].entry.index < es[j].entry.index) by {
        let a = es[i].entry.index as int;
        let b = es[j].entry.index as int;
        if a < b {
            lemma_count_present_strict(p, a, b);
        } else if b < a {
            lemma_count_present_strict(p, b, a);
        }
    }
    assert forall|i: int| 0 <= i < rows.len() implies (#[trigger] rows[i]).entry.index >= 0 by {
        lemma_count_present_bounds(p, es[i].entry.index as int);
    }
}

/// From the pointwise reindexing facts, the packed indices are dense from
/// zero.
#[verifier::rlimit(100)]
#[verifier::spinoff_prover]
proof fn lemma_build_dense(es: Seq<TableRow>, rows: Seq<TableRow>, p: Seq<bool>)
    requires
        rows.len() == es.len(),
        forall|i: int| 0 <= i < es.len() ==> 0 <= (#[trigger] es[i]).entry.index < p.len(),
        forall|v: int|
            0 <= v < p.len() && (#[trigger] p[v]) ==> exists|j: int|
                0 <= j < es.len() && (#[trigger] es[j]).entry.index == v,
        forall|j: int|
            0 <= j < rows.len() ==> (#[trigger] rows[j]).entry.index as int == count_present(
                p,
                es[j].entry.index as int,
            ),
    ensures
        rows_dense(rows),
{
    assert forall|i: int|
        0 <= i < rows.len() && (#[trigger] rows[i]).entry.index > 0 implies has_index(
        rows,
        rows[i].entry.index - 1,
    ) by {
        let a = es[i].entry.index as int;
        let c = rows[i].entry.index as int;
        lemma_count_present_attained(p, a, c - 1);
        let u = choose|u: int| 0 <= u < a && p[u] && count_present(p, u) == c - 1;
        assert(p[u]);
        let j = choose|j: int| 0 <= j < es.len() && (#[trigger] es[j]).entry.index == u;
        assert(rows[j].entry.index as int == count_present(p, u));
    }
    if rows.len() > 0 {
        let c0 = rows[0].entry.index as int;
        lemma_count_present_bounds(p, es[0].entry.index as int);
        if c0 > 0 {
            let a = es[0].entry.index as int;
            lemma_count_present_attained(p, a, 0);
            let u = choose|u: int| 0 <= u < a && p[u] && count_present(p, u) == 0;
            assert(p[u]);
            let j = choose|j: int| 0 <= j < es.len() && (#[trigger] es[j]).entry.index == u;
            assert(rows[j].entry.index as int == count_present(p, u));
            assert(rows[j].entry.index == 0);
        } else {
            assert(rows[0].entry.index == 0);
        }
    }
}

proof fn lemma_window_at(order: Seq<Rank>, count: nat, base: int, i: int)
    requires
        1 <= count <= order.len(),
        0 <= base <= i <= order.len() - count,
    ensures
        window_hashes(order, count, base)[i - base] == rank_product(order.subrange(i, i + count)),
    decreases i - base,
{
    assert(window_hashes(order, count, base) == seq![
        rank_product(order.subrange(base, base + count)),
    ] + window_hashes(order, count, base + 1));
    if base < i {
        lemma_window_at(order, count, base + 1, i);
        assert(window_hashes(order, count, base)[i - base] == window_hashes(
            order,
            count,
            base + 1,
        )[i - base - 1]) by {
            lemma_window_hashes_props(order, count, base);
            lemma_window_hashes_props(order, count, base + 1);
        }
    }
}

/// Inserting rows with an in-range index keeps the builder well formed.
proof fn lemma_add_suits_wf(rows: Seq<TableRow>, count: int, key: u128, suits: Seq<bool>, e: Entry)
    requires
        builder_wf(rows, count),
        0 <= e.index <= count,
    ensures
        builder_wf(add_suits_spec(rows, key, suits, e), count),
    decreases suits.len(),
{
    if suits.len() > 0 {
        let rows1 = rows_insert(rows, key, suits[0], e);
        lemma_row_index_of(rows, key, suits[0]);
        let nr = TableRow { key, suited: suits[0], entry: e };
        assert(builder_wf(rows1, count)) by {
            let ix = row_index_of(rows, key, suits[0]);
            if ix == -1 {
                assert(rows1 == rows.push(nr));
                assert(forall|i: int|
                    0 <= i < rows.len() ==> rows1[i] == rows[i]);
            } else {
                assert(rows1 == rows.update(ix, nr));
            }
            assert(forall|i: int|
                0 <= i < rows1.len() ==> 0 <= (#[trigger] rows1[i]).entry.index <= count);
        }
        lemma_add_suits_wf(rows1, count, key, suits.skip(1), e);
    }
}

/// Raising the count bound keeps a builder well formed.
proof fn lemma_builder_wf_weaken(rows: Seq<TableRow>, count: int, count1: int)
    requires
        builder_wf(rows, count),
        count <= count1 <= i32::MAX,
    ensures
        builder_wf(rows, count1),
{
}


/// From a contiguous table, every strength below an attained strength is
/// attained: the entry indices fill `[0, N)` with no holes.
pub proof fn lemma_has_index_below(rows: Seq<TableRow>, w: int, v: int)
    requires
        rows_dense(rows),
        has_index(rows, w),
        0 <= v <= w,
    ensures
        has_index(rows, v),
    decreases w - v,
{
    if v < w {
        let i = choose|i: int| 0 <= i < rows.len() && (#[trigger] rows[i]).entry.index == w;
        assert(rows[i].entry.index > 0);
        assert(has_index(rows, w - 1));
        lemma_has_index_below(rows, w - 1, v);
    }
}

/// Strength ordering is the registration ordering: among the packed rows,
/// one entry's index is below another's exactly when its hand was
/// registered as weaker (ties kept).
pub proof fn lemma_ordering_preserved(es: Seq<TableRow>, rows: Seq<TableRow>, i: int, j: int)
    requires
        rows_reindexed(es, rows),
        0 <= i < rows.len(),
        0 <= j < rows.len(),
    ensures
        rows[i].entry.index < rows[j].entry.index <==> es[i].entry.index < es[j].entry.index,
        rows[i].entry.index == rows[j].entry.index <==> es[i].entry.index == es[j].entry.index,
{
}

/// Why a card string yields no lookup entry.
#[derive(Debug, Clone, Copy, PartialEq, Eq, Structural)]
pub enum LookupError {
    /// The card text does not parse.
    InvalidCard(crate::utilities::CardParseError),
    /// The lookup demands all-distinct suits and the cards repeat one.
    NotRainbow,
    /// The rank fingerprint exceeds the 128-bit range, so no entry can match.
    FingerprintTooLarge,
    /// No entry is registered for these cards.
    InvalidHand,
}

/// The ranks of a card sequence.
pub open spec fn ranks_of(cards: Seq<Card>) -> Seq<Rank> {
    cards.map_values(|c: Card| c.rank)
}

/// What looking up a key for a card string yields.
pub open spec fn get_key_spec(rainbow_required: bool, s: Seq<char>) -> Result<
    (nat, bool),
    LookupError,
> {
    match crate::utilities::parse_cards_spec(s) {
        Err(e) => Err(LookupError::InvalidCard(e)),
        Ok(cards) => if rainbow_required && !Card::spec_rainbow(cards) {
            Err(LookupError::NotRainbow)
        } else if rank_product(ranks_of(cards)) > u128::MAX {
            Err(LookupError::FingerprintTooLarge)
        } else {
            Ok((rank_product(ranks_of(cards)), Card::spec_suited(cards)))
        },
    }
}

/// The key of a hand given directly as cards.
pub open spec fn key_for_cards(rainbow_required: bool, cards: Seq<Card>) -> Result<
    (nat, bool),
    LookupError,
> {
    if rainbow_required && !Card::spec_rainbow(cards) {
        Err(LookupError::NotRainbow)
    } else if rank_product(ranks_of(cards)) > u128::MAX {
        Err(LookupError::FingerprintTooLarge)
    } else {
        Ok((rank_product(ranks_of(cards)), Card::spec_suited(cards)))
    }
}

/// The entry of a hand given directly as cards, against a table.
pub open spec fn entry_for_cards(
    rainbow_required: bool,
    rows: Seq<TableRow>,
    cards: Seq<Card>,
) -> Result<Entry, LookupError> {
    match key_for_cards(rainbow_required, cards) {
        Err(e) => Err(e),
        Ok(k) => match rows_find(rows, k.0 as u128, k.1) {
            Option::None => Err(LookupError::InvalidHand),
            Option::Some(e) => Ok(e),
        },
    }
}

/// What looking up an entry for a card string yields, against a table.
pub open spec fn get_entry_spec(
    rainbow_required: bool,
    rows: Seq<TableRow>,
    s: Seq<char>,
) -> Result<Entry, LookupError> {
    match get_key_spec(rainbow_required, s) {
        Err(e) => Err(e),
        Ok(k) => match rows_find(rows, k.0 as u128, k.1) {
            Option::None => Err(LookupError::InvalidHand),
            Option::Some(e) => Ok(e),
        },
    }
}

/// An immutable hand-strength table for one poker variant: it maps the
/// prime-product fingerprint of a hand's ranks, together with a suited
/// flag, to a strength entry; `rainbow_required` marks the badugi variants,
/// whose keys demand all-distinct suits.
pub struct Lookup {
    pub order: Vec<Rank>,
    pub rows: Vec<TableRow>,
    pub rainbow_required: bool,
}

impl Lookup {
    /// The rank order this lookup ranks hands by.
    pub fn rank_order(&self) -> (r: &Vec<Rank>)
        ensures
            r@ == self.order@,
    {
        &self.order
    }

    /// The table rows.
    pub fn entries(&self) -> (r: &Vec<TableRow>)
        ensures
            r@ == self.rows@,
    {
        &self.rows
    }

    /// Finds the entry stored under a key.
    fn find_row(&self, key: u128, suited: bool) -> (r: Option<Entry>)
        ensures
            r == rows_find(self.rows@, key, suited),
    {
        let ghost rows0 = self.rows@;
        let mut i: usize = 0;
        while i < self.rows.len()
            invariant
                0 <= i <= self.rows@.len(),
                rows0 == self.rows@,
                forall|j: int| 0 <= j < i ==> !((#[trigger] self.rows@[j]).key == key
                    && self.rows@[j].suited == suited),
            decreases self.rows@.len() - i,
        {
            if self.rows[i].key == key && self.rows[i].suited == suited {
                proof {
                    lemma_row_index_of_found(rows0, key, suited, i as int);
                }
                return Option::Some(self.rows[i].entry);
            }
            i = i + 1;
        }
        proof {
            lemma_row_index_of_none(rows0, key, suited);
        }
        Option::None
    }

    /// Parses a card string into its lookup key: the prime-product
    /// fingerprint of the ranks and whether all cards share one suit.
    /// Badugi-style lookups reject any repeated suit.
    pub fn get_key(&self, cards_str: &str) -> (r: Result<(u128, bool), LookupError>)
        ensures
            match r {
                Ok(k) => get_key_spec(self.rainbow_required, cards_str@) == Ok::<
                    (nat, bool),
                    LookupError,
                >((k.0 as nat, k.1)),
                Err(e) => get_key_spec(self.rainbow_required, cards_str@) == Err::<
                    (nat, bool),
                    LookupError,
                >(e),
            },
    {
        let cards = match Card::parse_cards(cards_str) {
            Ok(cards) => cards,
            Err(e) => {
                return Err(LookupError::InvalidCard(e));
            },
        };
        if self.rainbow_required && !Card::are_rainbow(&cards) {
            return Err(LookupError::NotRainbow);
        }
        let ranks = Card::get_ranks(&cards);
        proof {
            assert(ranks@ == ranks_of(cards@));
        }
        let hash = match hash_ranks(&ranks) {
            Option::Some(h) => h,
            Option::None => {
                return Err(LookupError::FingerprintTooLarge);
            },
        };
        let suited = Card::are_suited(&cards);
        Ok((hash, suited))
    }

    /// Looks up the entry for a hand given directly as cards.
    pub fn get_entry_cards(&self, cards: &Vec<Card>) -> (r: Result<Entry, LookupError>)
        ensures
            r == entry_for_cards(self.rainbow_required, self.rows@, cards@),
    {
        if self.rainbow_required && !Card::are_rainbow(cards) {
            return Err(LookupError::NotRainbow);
        }
        let ranks = Card::get_ranks(cards);
        proof {
            assert(ranks@ == ranks_of(cards@));
        }
        let hash = match hash_ranks(&ranks) {
            Option::Some(h) => h,
            Option::None => {
                return Err(LookupError::FingerprintTooLarge);
            },
        };
        let suited = Card::are_suited(cards);
        match self.find_row(hash, suited) {
            Option::Some(e) => Ok(e),
            Option::None => Err(LookupError::InvalidHand),
        }
    }

    /// Looks up the entry for a hand given as a card string.
    pub fn get_entry(&self, cards_str: &str) -> (r: Result<Entry, LookupError>)
        ensures
            r == get_entry_spec(self.rainbow_required, self.rows@, cards_str@),
    {
        let key = match self.get_key(cards_str) {
            Ok(k) => k,
            Err(e) => {
                return Err(e);
            },
        };
        match self.find_row(key.0, key.1) {
            Option::Some(e) => Ok(e),
            Option::None => Err(LookupError::InvalidHand),
        }
    }

    /// Looks up the entry for a hand, or nothing if the cards are invalid.
    pub fn get_entry_or_none(&self, cards_str: &str) -> (r: Option<Entry>)
        ensures
            r == (match get_entry_spec(self.rainbow_required, self.rows@, cards_str@) {
                Ok(e) => Option::Some(e),
                Err(_) => Option::None::<Entry>,
            }),
    {
        match self.get_entry(cards_str) {
            Ok(e) => Option::Some(e),
            Err(_) => Option::None,
        }
    }

    /// Whether the cards form a registered hand.
    pub fn has_entry(&self, cards_str: &str) -> (r: bool)
        ensures
            r == (get_entry_spec(self.rainbow_required, self.rows@, cards_str@) is Ok),
    {
        match self.get_entry_or_none(cards_str) {
            Option::Some(_) => true,
            Option::None => false,
        }
    }
}


/// One multiset-shape step of a table construction.
pub open spec fn raw_add_multisets(
    st: (Seq<TableRow>, int),
    order: Seq<Rank>,
    counter: Seq<(u32, u32)>,
    suits: Seq<bool>,
    label: Label,
) -> (Seq<TableRow>, int) {
    builder_add_rev(st.0, st.1, as_u128_seq(hash_multisets_spec(order, counter)), suits, label)
}

/// One straights step of a table construction.
pub open spec fn raw_add_straights(
    st: (Seq<TableRow>, int),
    order: Seq<Rank>,
    count: nat,
    suits: Seq<bool>,
    label: Label,
) -> (Seq<TableRow>, int) {
    builder_add_fwd(st.0, st.1, as_u128_seq(straight_hashes_spec(order, count)), suits, label)
}

/// The standard five-card table before dense reindexing, category by
/// category from weakest to strongest.
pub open spec fn standard_raw() -> (Seq<TableRow>, int) {
    let order = RankOrder::standard_spec();
    let st = (Seq::<TableRow>::empty(), 0int);
    let st = raw_add_multisets(st, order, seq![(1u32, 5u32)], seq![false], Label::HighCard);
    let st = raw_add_multisets(
        st,
        order,
        seq![(1u32, 3u32), (2u32, 1u32)],
        seq![false],
        Label::OnePair,
    );
    let st = raw_add_multisets(
        st,
        order,
        seq![(1u32, 1u32), (2u32, 2u32)],
        seq![false],
        Label::TwoPair,
    );
    let st = raw_add_multisets(
        st,
        order,
        seq![(1u32, 2u32), (3u32, 1u32)],
        seq![false],
        Label::ThreeOfAKind,
    );
    let st = raw_add_straights(st, order, 5, seq![false], Label::Straight);
    let st = raw_add_multisets(st, order, seq![(1u32, 5u32)], seq![true], Label::Flush);
    let st = raw_add_multisets(
        st,
        order,
        seq![(2u32, 1u32), (3u32, 1u32)],
        seq![false],
        Label::FullHouse,
    );
    let st = raw_add_multisets(
        st,
        order,
        seq![(1u32, 1u32), (4u32, 1u32)],
        seq![false],
        Label::FourOfAKind,
    );
    let st = raw_add_straights(st, order, 5, seq![true], Label::StraightFlush);
    st
}

/// The short-deck table before reindexing: as the standard one, but with
/// the full house weaker than the flush.
pub open spec fn short_deck_holdem_raw() -> (Seq<TableRow>, int) {
    let order = RankOrder::short_deck_holdem_spec();
    let st = (Seq::<TableRow>::empty(), 0int);
    let st = raw_add_multisets(st, order, seq![(1u32, 5u32)], seq![false], Label::HighCard);
    let st = raw_add_multisets(
        st,
        order,
        seq![(1u32, 3u32), (2u32, 1u32)],
        seq![false],
        Label::OnePair,
    );
    let st = raw_add_multisets(
        st,
        order,
        seq![(1u32, 1u32), (2u32, 2u32)],
        seq![false],
        Label::TwoPair,
    );
    let st = raw_add_multisets(
        st,
        order,
        seq![(1u32, 2u32), (3u32, 1u32)],
        seq![false],
        Label::ThreeOfAKind,
    );
    let st = raw_add_straights(st, order, 5, seq![false], Label::Straight);
    let st = raw_add_multisets(
        st,
        order,
        seq![(2u32, 1u32), (3u32, 1u32)],
        seq![false],
        Label::FullHouse,
    );
    let st = raw_add_multisets(st, order, seq![(1u32, 5u32)], seq![true], Label::Flush);
    let st = raw_add_multisets(
        st,
        order,
        seq![(1u32, 1u32), (4u32, 1u32)],
        seq![false],
        Label::FourOfAKind,
    );
    let st = raw_add_straights(st, order, 5, seq![true], Label::StraightFlush);
    st
}

/// The eight-or-better low table before reindexing: five distinct low
/// ranks, suited or not.
pub open spec fn eight_or_better_raw() -> (Seq<TableRow>, int) {
    let order = RankOrder::eight_or_better_low_spec();
    let st = (Seq::<TableRow>::empty(), 0int);
    raw_add_multisets(st, order, seq![(1u32, 5u32)], seq![false, true], Label::HighCard)
}

/// The regular low table before reindexing: every shape ranks as a high
/// card category under the ace-low order, flushes ignored.
pub open spec fn regular_raw() -> (Seq<TableRow>, int) {
    let order = RankOrder::regular_spec();
    let st = (Seq::<TableRow>::empty(), 0int);
    let st = raw_add_multisets(st, order, seq![(1u32, 5u32)], seq![false, true], Label::HighCard);
    let st = raw_add_multisets(
        st,
        order,
        seq![(1u32, 3u32), (2u32, 1u32)],
        seq![false],
        Label::OnePair,
    );
    let st = raw_add_multisets(
        st,
        order,
        seq![(1u32, 1u32), (2u32, 2u32)],
        seq![false],
        Label::TwoPair,
    );
    let st = raw_add_multisets(
        st,
        order,
        seq![(1u32, 2u32), (3u32, 1u32)],
        seq![false],
        Label::ThreeOfAKind,
    );
    let st = raw_add_multisets(
        st,
        order,
        seq![(2u32, 1u32), (3u32, 1u32)],
        seq![false],
        Label::FullHouse,
    );
    let st = raw_add_multisets(
        st,
        order,
        seq![(1u32, 1u32), (4u32, 1u32)],
        seq![false],
        Label::FourOfAKind,
    );
    st
}

/// A badugi table before reindexing over the given order: four distinct
/// ranks down to one, a single card counting as suited.
pub open spec fn badugi_raw(order: Seq<Rank>) -> (Seq<TableRow>, int) {
    let st = (Seq::<TableRow>::empty(), 0int);
    let st = raw_add_multisets(st, order, seq![(1u32, 4u32)], seq![false], Label::HighCard);
    let st = raw_add_multisets(st, order, seq![(1u32, 3u32)], seq![false], Label::HighCard);
    let st = raw_add_multisets(st, order, seq![(1u32, 2u32)], seq![false], Label::HighCard);
    let st = raw_add_multisets(st, order, seq![(1u32, 1u32)], seq![true], Label::HighCard);
    st
}

/// The Kuhn poker table before reindexing: a single card.
pub open spec fn kuhn_poker_raw() -> (Seq<TableRow>, int) {
    let order = RankOrder::kuhn_poker_spec();
    let st = (Seq::<TableRow>::empty(), 0int);
    raw_add_multisets(st, order, seq![(1u32, 1u32)], seq![true], Label::HighCard)
}

impl Lookup {
    fn multiset_step(
        b: &mut LookupBuilder,
        order: &Vec<Rank>,
        counter: Vec<(u32, u32)>,
        suits: Vec<bool>,
        label: Label,
    )
        requires
            counter_weight(counter@) <= 23,
        ensures
            (final(b).entries@, final(b).count()) == raw_add_multisets(
                (old(b).entries@, old(b).count()),
                order@,
                counter@,
                suits@,
                label,
            ),
            old(b).wf() ==> final(b).wf(),
    {
        b.add_multisets(order, &counter, &suits, label);
    }

    fn straight_step(
        b: &mut LookupBuilder,
        order: &Vec<Rank>,
        count: usize,
        suits: Vec<bool>,
        label: Label,
    )
        requires
            1 <= count <= order@.len(),
            count <= 23,
            order@.len() < usize::MAX,
        ensures
            (final(b).entries@, final(b).count()) == raw_add_straights(
                (old(b).entries@, old(b).count()),
                order@,
                count as nat,
                suits@,
                label,
            ),
            old(b).wf() ==> final(b).wf(),
    {
        b.add_straights(order, count, &suits, label);
    }

    /// Builds the standard five-card lookup.
    pub fn standard() -> (r: Lookup)
        ensures
            r.order@ == RankOrder::standard_spec(),
            r.rainbow_required == false,
            rows_reindexed(standard_raw().0, r.rows@),
            rows_dense(r.rows@),
    {
        let order = RankOrder::standard();
        let mut b = LookupBuilder::default();
        Self::multiset_step(&mut b, &order, counter1(1, 5), flags1(false), Label::HighCard);
        Self::multiset_step(
            &mut b,
            &order,
            counter2(1, 3, 2, 1),
            flags1(false),
            Label::OnePair,
        );
        Self::multiset_step(
            &mut b,
            &order,
            counter2(1, 1, 2, 2),
            flags1(false),
            Label::TwoPair,
        );
        Self::multiset_step(
            &mut b,
            &order,
            counter2(1, 2, 3, 1),
            flags1(false),
            Label::ThreeOfAKind,
        );
        Self::straight_step(&mut b, &order, 5, flags1(false), Label::Straight);
        Self::multiset_step(&mut b, &order, counter1(1, 5), flags1(true), Label::Flush);
        Self::multiset_step(
            &mut b,
            &order,
            counter2(2, 1, 3, 1),
            flags1(false),
            Label::FullHouse,
        );
        Self::multiset_step(
            &mut b,
            &order,
            counter2(1, 1, 4, 1),
            flags1(false),
            Label::FourOfAKind,
        );
        Self::straight_step(&mut b, &order, 5, flags1(true), Label::StraightFlush);
        let rows = b.build();
        Lookup { order, rows, rainbow_required: false }
    }

    /// Builds the short-deck lookup.
    pub fn short_deck_holdem() -> (r: Lookup)
        ensures
            r.order@ == RankOrder::short_deck_holdem_spec(),
            r.rainbow_required == false,
            rows_reindexed(short_deck_holdem_raw().0, r.rows@),
            rows_dense(r.rows@),
    {
        let order = RankOrder::short_deck_holdem();
        let mut b = LookupBuilder::default();
        Self::multiset_step(&mut b, &order, counter1(1, 5), flags1(false), Label::HighCard);
        Self::multiset_step(
            &mut b,
            &order,
            counter2(1, 3, 2, 1),
            flags1(false),
            Label::OnePair,
        );
        Self::multiset_step(
            &mut b,
            &order,
            counter2(1, 1, 2, 2),
            flags1(false),
            Label::TwoPair,
        );
        Self::multiset_step(
            &mut b,
            &order,
            counter2(1, 2, 3, 1),
            flags1(false),
            Label::ThreeOfAKind,
        );
        Self::straight_step(&mut b, &order, 5, flags1(false), Label::Straight);
        Self::multiset_step(
            &mut b,
            &order,
            counter2(2, 1, 3, 1),
            flags1(false),
            Label::FullHouse,
        );
        Self::multiset_step(&mut b, &order, counter1(1, 5), flags1(true), Label::Flush);
        Self::multiset_step(
            &mut b,
            &order,
            counter2(1, 1, 4, 1),
            flags1(false),
            Label::FourOfAKind,
        );
        Self::straight_step(&mut b, &order, 5, flags1(true), Label::StraightFlush);
        let rows = b.build();
        Lookup { order, rows, rainbow_required: false }
    }

    /// Builds the eight-or-better low lookup.
    pub fn eight_or_better() -> (r: Lookup)
        ensures
            r.order@ == RankOrder::eight_or_better_low_spec(),
            r.rainbow_required == false,
            rows_reindexed(eight_or_better_raw().0, r.rows@),
            rows_dense(r.rows@),
    {
        let order = RankOrder::eight_or_better_low();
        let mut b = LookupBuilder::default();
        Self::multiset_step(
            &mut b,
            &order,
            counter1(1, 5),
            flags2(false, true),
            Label::HighCard,
        );
        let rows = b.build();
        Lookup { order, rows, rainbow_required: false }
    }

    /// Builds the regular (ace-low) lookup.
    pub fn regular() -> (r: Lookup)
        ensures
            r.order@ == RankOrder::regular_spec(),
            r.rainbow_required == false,
            rows_reindexed(regular_raw().0, r.rows@),
            rows_dense(r.rows@),
    {
        let order = RankOrder::regular();
        let mut b = LookupBuilder::default();
        Self::multiset_step(
            &mut b,
            &order,
            counter1(1, 5),
            flags2(false, true),
            Label::HighCard,
        );
        Self::multiset_step(
            &mut b,
            &order,
            counter2(1, 3, 2, 1),
            flags1(false),
            Label::OnePair,
        );
        Self::multiset_step(
            &mut b,
            &order,
            counter2(1, 1, 2, 2),
            flags1(false),
            Label::TwoPair,
        );
        Self::multiset_step(
            &mut b,
            &order,
            counter2(1, 2, 3, 1),
            flags1(false),
            Label::ThreeOfAKind,
        );
        Self::multiset_step(
            &mut b,
            &order,
            counter2(2, 1, 3, 1),
            flags1(false),
            Label::FullHouse,
        );
        Self::multiset_step(
            &mut b,
            &order,
            counter2(1, 1, 4, 1),
            flags1(false),
            Label::FourOfAKind,
        );
        let rows = b.build();
        Lookup { order, rows, rainbow_required: false }
    }

    /// Builds the badugi lookup over the regular order.
    pub fn badugi() -> (r: Lookup)
        ensures
            r.order@ == RankOrder::regular_spec(),
            r.rainbow_required == true,
            rows_reindexed(badugi_raw(RankOrder::regular_spec()).0, r.rows@),
            rows_dense(r.rows@),
    {
        let order = RankOrder::regular();
        let rows = Self::badugi_rows(&order);
        Lookup { order, rows, rainbow_required: true }
    }

    /// Builds the badugi lookup over the standard order.
    pub fn standard_badugi() -> (r: Lookup)
        ensures
            r.order@ == RankOrder::standard_spec(),
            r.rainbow_required == true,
            rows_reindexed(badugi_raw(RankOrder::standard_spec()).0, r.rows@),
            rows_dense(r.rows@),
    {
        let order = RankOrder::standard();
        let rows = Self::badugi_rows(&order);
        Lookup { order, rows, rainbow_required: true }
    }

    fn badugi_rows(order: &Vec<Rank>) -> (rows: Vec<TableRow>)
        ensures
            rows_reindexed(badugi_raw(order@).0, rows@),
            rows_dense(rows@),
    {
        let mut b = LookupBuilder::default();
        Self::multiset_step(&mut b, order, counter1(1, 4), flags1(false), Label::HighCard);
        Self::multiset_step(&mut b, order, counter1(1, 3), flags1(false), Label::HighCard);
        Self::multiset_step(&mut b, order, counter1(1, 2), flags1(false), Label::HighCard);
        Self::multiset_step(&mut b, order, counter1(1, 1), flags1(true), Label::HighCard);
        b.build()
    }

    /// Builds the Kuhn poker lookup.
    pub fn kuhn_poker() -> (r: Lookup)
        ensures
            r.order@ == RankOrder::kuhn_poker_spec(),
            r.rainbow_required == false,
            rows_reindexed(kuhn_poker_raw().0, r.rows@),
            rows_dense(r.rows@),
    {
        let order = RankOrder::kuhn_poker();
        let mut b = LookupBuilder::default();
        Self::multiset_step(&mut b, &order, counter1(1, 1), flags1(true), Label::HighCard);
        let rows = b.build();
        Lookup { order, rows, rainbow_required: false }
    }
}

/// A one-part counter weighs its multiplicity times its count.
proof fn lemma_counter1_weight(m: u32, c: u32)
    ensures
        counter_weight(seq![(m, c)]) == m * c,
{
    reveal_with_fuel(counter_weight, 3);
    assert(seq![(m, c)].drop_last() =~= Seq::<(u32, u32)>::empty());
    assert(counter_weight(seq![(m, c)].drop_last()) == 0);
}

/// A two-part counter weighs the sum of its parts.
proof fn lemma_counter2_weight(m1: u32, c1: u32, m2: u32, c2: u32)
    ensures
        counter_weight(seq![(m1, c1), (m2, c2)]) == m1 * c1 + m2 * c2,
{
    reveal_with_fuel(counter_weight, 3);
    assert(seq![(m1, c1), (m2, c2)].drop_last() =~= seq![(m1, c1)]);
    assert(seq![(m1, c1)].drop_last() =~= Seq::<(u32, u32)>::empty());
    assert(counter_weight(seq![(m1, c1)].drop_last()) == 0);
    assert(counter_weight(seq![(m1, c1)]) == m1 * c1);
}

fn counter1(m: u32, c: u32) -> (r: Vec<(u32, u32)>)
    ensures
        r@ == seq![(m, c)],
        counter_weight(r@) == m * c,
{
    let r = vec![(m, c)];
    proof {
        assert(r@ =~= seq![(m, c)]);
        lemma_counter1_weight(m, c);
    }
    r
}

fn counter2(m1: u32, c1: u32, m2: u32, c2: u32) -> (r: Vec<(u32, u32)>)
    ensures
        r@ == seq![(m1, c1), (m2, c2)],
        counter_weight(r@) == m1 * c1 + m2 * c2,
{
    let r = vec![(m1, c1), (m2, c2)];
    proof {
        assert(r@ =~= seq![(m1, c1), (m2, c2)]);
        lemma_counter2_weight(m1, c1, m2, c2);
    }
    r
}

fn flags1(a: bool) -> (r: Vec<bool>)
    ensures
        r@ == seq![a],
{
    let r = vec![a];
    proof {
        assert(r@ =~= seq![a]);
    }
    r
}

fn flags2(a: bool, b: bool) -> (r: Vec<bool>)
    ensures
        r@ == seq![a, b],
{
    let r = vec![a, b];
    proof {
        assert(r@ =~= seq![a, b]);
    }
    r
}

/// Whether a value is one of the thirteen rank primes.
pub open spec fn is_rank_prime(x: int) -> bool {
    x == 2 || x == 3 || x == 5 || x == 7 || x == 11 || x == 13 || x == 17 || x == 19 || x == 23
        || x == 29 || x == 31 || x == 37 || x == 41
}

/// Two distinct rank primes never multiply to a multiple of each other:
/// for any residue below `p`, multiplying by the other prime leaves a
/// nonzero residue.
proof fn lemma_rank_primes_coprime(t: int, a: int, p: int)
    requires
        is_rank_prime(a),
        is_rank_prime(p),
        a != p,
        1 <= t < p,
    ensures
        (t * a) % p != 0,
{
    assert((t * a) % p != 0) by (nonlinear_arith)
        requires
            is_rank_prime(a),
            is_rank_prime(p),
            a != p,
            1 <= t < p,
    ;
}

/// Multiplying a non-multiple of a rank prime by a different rank prime
/// leaves a non-multiple.
proof fn lemma_rank_prime_euclid(q: int, a: int, p: int)
    requires
        q >= 0,
        is_rank_prime(a),
        is_rank_prime(p),
        a != p,
        q % p != 0,
    ensures
        (q * a) % p != 0,
{
    let t = q % p;
    vstd::arithmetic::div_mod::lemma_mod_bound(q, p);
    vstd::arithmetic::div_mod::lemma_mul_mod_noop_left(q, a, p);
    lemma_rank_primes_coprime(t, a, p);
}

/// How many cards of a rank a sequence holds.
pub open spec fn rank_count(s: Seq<Rank>, r: Rank) -> int
    decreases s.len(),
{
    if s.len() == 0 {
        0
    } else {
        (if s[0] == r {
            1int
        } else {
            0int
        }) + rank_count(s.skip(1), r)
    }
}

/// The product of the primes of every card not of the given rank.
pub open spec fn rank_product_excl(s: Seq<Rank>, r: Rank) -> nat
    decreases s.len(),
{
    if s.len() == 0 {
        1
    } else if s[0] == r {
        rank_product_excl(s.skip(1), r)
    } else {
        prime_of_rank(s[0]) * rank_product_excl(s.skip(1), r)
    }
}

/// Whether a sequence holds only real ranks (no sentinel).
pub open spec fn all_known(s: Seq<Rank>) -> bool {
    forall|i: int| 0 <= i < s.len() ==> #[trigger] s[i] != Rank::Unknown
}

/// The residual product is coprime to the excluded rank's prime.
proof fn lemma_excl_coprime(s: Seq<Rank>, r: Rank)
    requires
        all_known(s),
        r != Rank::Unknown,
    ensures
        rank_product_excl(s, r) >= 1,
        (rank_product_excl(s, r) as int) % (prime_of_rank(r) as int) != 0,
    decreases s.len(),
{
    let p = prime_of_rank(r) as int;
    if s.len() == 0 {
        assert(1int % p == 1) by {
            vstd::arithmetic::div_mod::lemma_small_mod(1nat, p as nat);
        }
    } else {
        assert(forall|i: int| 0 <= i < s.skip(1).len() ==> #[trigger] s.skip(1)[i] == s[i + 1]);
        lemma_excl_coprime(s.skip(1), r);
        if s[0] != r {
            let a = prime_of_rank(s[0]) as int;
            let q = rank_product_excl(s.skip(1), r) as int;
            assert(s[0] != Rank::Unknown);
            assert(is_rank_prime(a));
            assert(is_rank_prime(p));
            assert(a != p);
            lemma_rank_prime_euclid(q, a, p);
            vstd::arithmetic::mul::lemma_mul_is_commutative(a, q);
            vstd::arithmetic::mul::lemma_mul_strictly_positive(a, q);
        }
    }
}

/// The fingerprint factors as the excluded rank's prime power times the
/// residual product.
proof fn lemma_valuation(s: Seq<Rank>, r: Rank)
    requires
        all_known(s),
        r != Rank::Unknown,
    ensures
        rank_count(s, r) >= 0,
        rank_product(s) == pow(prime_of_rank(r) as int, rank_count(s, r) as nat)
            * rank_product_excl(s, r),
    decreases s.len(),
{
    let p = prime_of_rank(r) as int;
    if s.len() == 0 {
        vstd::arithmetic::power::lemma_pow0(p);
    } else {
        assert(forall|i: int| 0 <= i < s.skip(1).len() ==> #[trigger] s.skip(1)[i] == s[i + 1]);
        lemma_valuation(s.skip(1), r);
        let c = rank_count(s.skip(1), r);
        let m = rank_product_excl(s.skip(1), r) as int;
        if s[0] == r {
            // product = p * (p^c * m) == p^(c+1) * m
            assert(pow(p, (c + 1) as nat) == p * pow(p, c as nat)) by {
                vstd::arithmetic::power::lemma_pow_adds(p, 1, c as nat);
                vstd::arithmetic::power::lemma_pow1(p);
            }
            vstd::arithmetic::mul::lemma_mul_is_associative(p, pow(p, c as nat), m);
        } else {
            // product = a * (p^c * m) == p^c * (a * m)
            let a = prime_of_rank(s[0]) as int;
            vstd::arithmetic::mul::lemma_mul_is_associative(a, pow(p, c as nat), m);
            vstd::arithmetic::mul::lemma_mul_is_commutative(a, pow(p, c as nat));
            vstd::arithmetic::mul::lemma_mul_is_associative(pow(p, c as nat), a, m);
        }
    }
}

/// Equal prime-power products with coprime residues force equal exponents
/// and equal residues.
proof fn lemma_prime_power_cancel(p: int, c1: int, m1: int, c2: int, m2: int)
    requires
        p >= 2,
        c1 >= 0,
        c2 >= 0,
        m1 >= 1,
        m2 >= 1,
        m1 % p != 0,
        m2 % p != 0,
        pow(p, c1 as nat) * m1 == pow(p, c2 as nat) * m2,
    ensures
        c1 == c2,
    decreases c1,
{
    vstd::arithmetic::power::lemma_pow_positive(p, c1 as nat);
    vstd::arithmetic::power::lemma_pow_positive(p, c2 as nat);
    if c1 == 0 {
        vstd::arithmetic::power::lemma_pow0(p);
        if c2 > 0 {
            // m1 would be a multiple of p.
            assert(pow(p, c2 as nat) == p * pow(p, (c2 - 1) as nat)) by {
                vstd::arithmetic::power::lemma_pow_adds(p, 1, (c2 - 1) as nat);
                vstd::arithmetic::power::lemma_pow1(p);
            }
            let k = pow(p, (c2 - 1) as nat) * m2;
            assert(m1 == p * k) by {
                vstd::arithmetic::mul::lemma_mul_is_associative(p, pow(p, (c2 - 1) as nat), m2);
            }
            assert((p * k) % p == 0) by {
                vstd::arithmetic::mul::lemma_mul_is_commutative(p, k);
                vstd::arithmetic::div_mod::lemma_mod_multiples_basic(k, p);
            }
            assert(false);
        }
    } else {
        if c2 == 0 {
            vstd::arithmetic::power::lemma_pow0(p);
            assert(pow(p, c1 as nat) == p * pow(p, (c1 - 1) as nat)) by {
                vstd::arithmetic::power::lemma_pow_adds(p, 1, (c1 - 1) as nat);
                vstd::arithmetic::power::lemma_pow1(p);
            }
            let k = pow(p, (c1 - 1) as nat) * m1;
            assert(m2 == p * k) by {
                vstd::arithmetic::mul::lemma_mul_is_associative(p, pow(p, (c1 - 1) as nat), m1);
            }
            assert((p * k) % p == 0) by {
                vstd::arithmetic::mul::lemma_mul_is_commutative(p, k);
                vstd::arithmetic::div_mod::lemma_mod_multiples_basic(k, p);
            }
            assert(false);
        } else {
            // Divide both sides by p and recurse.
            assert(pow(p, c1 as nat) == p * pow(p, (c1 - 1) as nat)) by {
                vstd::arithmetic::power::lemma_pow_adds(p, 1, (c1 - 1) as nat);
                vstd::arithmetic::power::lemma_pow1(p);
            }
            assert(pow(p, c2 as nat) == p * pow(p, (c2 - 1) as nat)) by {
                vstd::arithmetic::power::lemma_pow_adds(p, 1, (c2 - 1) as nat);
                vstd::arithmetic::power::lemma_pow1(p);
            }
            let x = pow(p, (c1 - 1) as nat) * m1;
            let y = pow(p, (c2 - 1) as nat) * m2;
            assert(p * x == p * y) by {
                vstd::arithmetic::mul::lemma_mul_is_associative(p, pow(p, (c1 - 1) as nat), m1);
                vstd::arithmetic::mul::lemma_mul_is_associative(p, pow(p, (c2 - 1) as nat), m2);
            }
            assert(x == y) by {
                vstd::arithmetic::mul::lemma_mul_equality_converse(p, x, y);
                vstd::arithmetic::mul::lemma_mul_is_commutative(p, x);
                vstd::arithmetic::mul::lemma_mul_is_commutative(p, y);
            }
            lemma_prime_power_cancel(p, c1 - 1, m1, c2 - 1, m2);
        }
    }
}

/// Fingerprint uniqueness: two collections of real ranks with the same
/// prime-product fingerprint hold exactly the same ranks with the same
/// multiplicities; they are equal as multisets.
pub proof fn lemma_fingerprint_unique(s1: Seq<Rank>, s2: Seq<Rank>)
    requires
        all_known(s1),
        all_known(s2),
        rank_product(s1) == rank_product(s2),
    ensures
        forall|r: Rank| #[trigger] rank_count(s1, r) == rank_count(s2, r),
{
    assert forall|r: Rank| #[trigger] rank_count(s1, r) == rank_count(s2, r) by {
        if r == Rank::Unknown {
            lemma_unknown_count_zero(s1);
            lemma_unknown_count_zero(s2);
        } else {
            let p = prime_of_rank(r) as int;
            lemma_valuation(s1, r);
            lemma_valuation(s2, r);
            lemma_excl_coprime(s1, r);
            lemma_excl_coprime(s2, r);
            lemma_prime_power_cancel(
                p,
                rank_count(s1, r),
                rank_product_excl(s1, r) as int,
                rank_count(s2, r),
                rank_product_excl(s2, r) as int,
            );
        }
    }
}

/// A sequence of real ranks holds no sentinel.
proof fn lemma_unknown_count_zero(s: Seq<Rank>)
    requires
        all_known(s),
    ensures
        rank_count(s, Rank::Unknown) == 0,
    decreases s.len(),
{
    if s.len() > 0 {
        assert(forall|i: int| 0 <= i < s.skip(1).len() ==> #[trigger] s.skip(1)[i] == s[i + 1]);
        lemma_unknown_count_zero(s.skip(1));
    }
}

} // verus!
