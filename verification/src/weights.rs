//! Weighted candidate sets: multisets of tokens with positive occurrence
//! counts, supporting roulette-wheel selection proportional to the counts.

use vstd::prelude::*;

verus! {

/// Abstract value of a weighted candidate set: the tokens in first-insertion
/// order, each with its occurrence count.
pub type WeightSeq = Seq<(Seq<char>, nat)>;

/// Increment the count of `k`, or append it with count 1 if it is absent.
/// Only the first entry whose token equals `k` is touched.
pub open spec fn bump(s: WeightSeq, k: Seq<char>) -> WeightSeq
    decreases s.len(),
{
    if s.len() == 0 {
        seq![(k, 1 as nat)]
    } else if s[0].0 == k {
        seq![(s[0].0, (s[0].1 + 1) as nat)] + s.drop_first()
    } else {
        seq![s[0]] + bump(s.drop_first(), k)
    }
}

/// Sum of all counts: how many observations the set records.
pub open spec fn total_weight(s: WeightSeq) -> nat
    decreases s.len(),
{
    if s.len() == 0 {
        0
    } else {
        s[0].1 + total_weight(s.drop_first())
    }
}

/// Whether some entry carries the token `k`.
pub open spec fn has_key(s: WeightSeq, k: Seq<char>) -> bool
    decreases s.len(),
{
    if s.len() == 0 {
        false
    } else {
        s[0].0 == k || has_key(s.drop_first(), k)
    }
}

/// The count recorded for `k` (at its first entry), or 0 if `k` is absent.
pub open spec fn weight_of(s: WeightSeq, k: Seq<char>) -> nat
    decreases s.len(),
{
    if s.len() == 0 {
        0
    } else if s[0].0 == k {
        s[0].1
    } else {
        weight_of(s.drop_first(), k)
    }
}

/// Roulette-wheel selection: the first token whose cumulative count range
/// covers the draw point `d`.
pub open spec fn roulette(s: WeightSeq, d: nat) -> Seq<char>
    decreases s.len(),
{
    if s.len() == 0 {
        Seq::empty()
    } else if d < s[0].1 {
        s[0].0
    } else {
        roulette(s.drop_first(), (d - s[0].1) as nat)
    }
}

proof fn lemma_bump_at_found(s: WeightSeq, k: Seq<char>, i: int)
    requires
        0 <= i < s.len(),
        s[i].0 == k,
        forall|j: int| 0 <= j < i ==> (#[trigger] s[j]).0 != k,
    ensures
        bump(s, k) =~= s.update(i, (k, (s[i].1 + 1) as nat)),
    decreases s.len(),
{
    if i == 0 {
        assert(bump(s, k) =~= s.update(0, (k, (s[0].1 + 1) as nat)));
    } else {
        assert(s.drop_first()[i - 1].0 == k);
        assert(forall|j: int|
            0 <= j < i - 1 ==> (#[trigger] s.drop_first()[j]).0 == s[j + 1].0 && s[j + 1].0 != k);
        lemma_bump_at_found(s.drop_first(), k, i - 1);
        assert(bump(s, k) =~= s.update(i, (k, (s[i].1 + 1) as nat)));
    }
}

proof fn lemma_bump_absent(s: WeightSeq, k: Seq<char>)
    requires
        forall|j: int| 0 <= j < s.len() ==> (#[trigger] s[j]).0 != k,
    ensures
        bump(s, k) =~= s.push((k, 1 as nat)),
    decreases s.len(),
{
    if s.len() > 0 {
        assert(forall|j: int|
            0 <= j < s.drop_first().len() ==> (#[trigger] s.drop_first()[j]).0 == s[j + 1].0
                && s[j + 1].0 != k);
        lemma_bump_absent(s.drop_first(), k);
        assert(bump(s, k) =~= s.push((k, 1 as nat)));
    }
}

/// A bump adds exactly one observation.
pub proof fn lemma_bump_total(s: WeightSeq, k: Seq<char>)
    ensures
        total_weight(bump(s, k)) == total_weight(s) + 1,
    decreases s.len(),
{
    if s.len() == 0 {
        assert(bump(s, k) =~= seq![(k, 1 as nat)]);
        assert(bump(s, k).drop_first() =~= Seq::<(Seq<char>, nat)>::empty());
        assert(total_weight(bump(s, k)) == 1 + total_weight(bump(s, k).drop_first()));
    } else if s[0].0 == k {
        assert(bump(s, k).drop_first() =~= s.drop_first());
        assert(bump(s, k)[0].1 == s[0].1 + 1);
    } else {
        lemma_bump_total(s.drop_first(), k);
        assert(bump(s, k).drop_first() =~= bump(s.drop_first(), k));
    }
}

/// Splitting a set at any point splits its total weight.
pub proof fn lemma_total_split(s: WeightSeq, i: int)
    requires
        0 <= i <= s.len(),
    ensures
        total_weight(s) == total_weight(s.take(i)) + total_weight(s.skip(i)),
    decreases i,
{
    if i == 0 {
        assert(s.take(0) =~= Seq::<(Seq<char>, nat)>::empty());
        assert(s.skip(0) =~= s);
    } else {
        lemma_total_split(s.drop_first(), i - 1);
        assert(s.take(i).drop_first() =~= s.drop_first().take(i - 1));
        assert(s.skip(i) =~= s.drop_first().skip(i - 1));
        assert(total_weight(s.take(i)) == s[0].1 + total_weight(s.drop_first().take(i - 1)));
    }
}

/// Every count in the set is positive.
pub open spec fn counts_positive(s: WeightSeq) -> bool {
    forall|i: int| 0 <= i < s.len() ==> (#[trigger] s[i]).1 >= 1
}

/// A bump keeps all counts positive.
pub proof fn lemma_bump_counts_positive(s: WeightSeq, k: Seq<char>)
    requires
        counts_positive(s),
    ensures
        counts_positive(bump(s, k)),
    decreases s.len(),
{
    if s.len() == 0 {
    } else if s[0].0 == k {
    } else {
        assert(counts_positive(s.drop_first()));
        lemma_bump_counts_positive(s.drop_first(), k);
        assert(forall|i: int|
            0 <= i < bump(s, k).len() ==> (#[trigger] bump(s, k)[i]).1 >= 1) by {
            assert(forall|i: int|
                1 <= i < bump(s, k).len() ==> (#[trigger] bump(s, k)[i]) == bump(
                    s.drop_first(),
                    k,
                )[i - 1]);
        }
    }
}

/// A bump never empties the set, and never removes an entry.
pub proof fn lemma_bump_len(s: WeightSeq, k: Seq<char>)
    ensures
        bump(s, k).len() >= 1,
        bump(s, k).len() >= s.len(),
    decreases s.len(),
{
    if s.len() > 0 && s[0].0 != k {
        lemma_bump_len(s.drop_first(), k);
    }
}

/// How a bump changes each recorded count.
pub proof fn lemma_bump_weight(s: WeightSeq, k: Seq<char>, j: Seq<char>)
    ensures
        weight_of(bump(s, k), j) == if j == k {
            weight_of(s, j) + 1
        } else {
            weight_of(s, j)
        },
    decreases s.len(),
{
    if s.len() == 0 {
        assert(bump(s, k).drop_first() =~= Seq::<(Seq<char>, nat)>::empty());
        assert(bump(s, k)[0] == (k, 1 as nat));
        assert(weight_of(bump(s, k).drop_first(), j) == 0);
    } else if s[0].0 == k {
        assert(bump(s, k).drop_first() =~= s.drop_first());
        assert(bump(s, k)[0] == (s[0].0, (s[0].1 + 1) as nat));
        assert(weight_of(bump(s, k), j) == if bump(s, k)[0].0 == j {
            bump(s, k)[0].1
        } else {
            weight_of(bump(s, k).drop_first(), j)
        });
    } else {
        lemma_bump_weight(s.drop_first(), k, j);
        assert(bump(s, k).drop_first() =~= bump(s.drop_first(), k));
        assert(bump(s, k)[0] == s[0]);
        assert(weight_of(bump(s, k), j) == if bump(s, k)[0].0 == j {
            bump(s, k)[0].1
        } else {
            weight_of(bump(s, k).drop_first(), j)
        });
    }
}

/// A non-empty set with positive counts has positive total weight.
pub proof fn lemma_total_positive(s: WeightSeq)
    requires
        s.len() > 0,
        counts_positive(s),
    ensures
        total_weight(s) > 0,
{
    assert(s[0].1 >= 1);
}

proof fn lemma_has_key_at(s: WeightSeq, k: Seq<char>, i: int)
    requires
        0 <= i < s.len(),
        s[i].0 == k,
    ensures
        has_key(s, k),
    decreases s.len(),
{
    if i > 0 {
        assert(s.drop_first()[i - 1] == s[i]);
        lemma_has_key_at(s.drop_first(), k, i - 1);
    }
}

proof fn lemma_has_key_none(s: WeightSeq, k: Seq<char>)
    requires
        forall|j: int| 0 <= j < s.len() ==> (#[trigger] s[j]).0 != k,
    ensures
        !has_key(s, k),
    decreases s.len(),
{
    if s.len() > 0 {
        assert(forall|j: int|
            0 <= j < s.drop_first().len() ==> (#[trigger] s.drop_first()[j]).0 == s[j + 1].0
                && s[j + 1].0 != k);
        lemma_has_key_none(s.drop_first(), k);
    }
}

/// A selected token is always one that the set holds.
pub proof fn lemma_roulette_has_key(s: WeightSeq, d: nat)
    requires
        d < total_weight(s),
    ensures
        has_key(s, roulette(s, d)),
    decreases s.len(),
{
    if s.len() > 0 && d >= s[0].1 {
        lemma_roulette_has_key(s.drop_first(), (d - s[0].1) as nat);
    }
}

/// A weighted candidate set. The counts are positive and `total` caches the
/// sum of all of them, so a draw below `total` always lands on a candidate.
pub struct WeightedBag {
    items: Vec<(String, u128)>,
    total: u128,
}

impl View for WeightedBag {
    type V = WeightSeq;

    closed spec fn view(&self) -> WeightSeq {
        self.items@.map_values(|p: (String, u128)| (p.0@, p.1 as nat))
    }
}

impl WeightedBag {
    /// Well-formedness: the cached total is the sum of the counts, and every
    /// count is positive.
    pub closed spec fn inv(&self) -> bool {
        &&& self.total as nat == total_weight(self@)
        &&& counts_positive(self@)
    }

    /// The invariant makes every count positive.
    pub proof fn lemma_inv_counts_positive(&self)
        requires
            self.inv(),
        ensures
            counts_positive(self@),
    {
    }

    /// An empty set.
    pub fn empty() -> (r: Self)
        ensures
            r.inv(),
            r@ =~= Seq::<(Seq<char>, nat)>::empty(),
    {
        WeightedBag { items: Vec::new(), total: 0 }
    }

    /// How many observations the set records in all.
    pub fn total(&self) -> (r: u128)
        requires
            self.inv(),
        ensures
            r as nat == total_weight(self@),
    {
        self.total
    }

    /// Record one observation of `token`.
    pub fn record(&mut self, token: &String)
        requires
            old(self).inv(),
            total_weight(old(self)@) < u128::MAX,
        ensures
            final(self).inv(),
            final(self)@ =~= bump(old(self)@, token@),
            total_weight(final(self)@) == total_weight(old(self)@) + 1,
    {
        proof {
            lemma_bump_total(old(self)@, token@);
        }
        let n = self.items.len();
        let mut i: usize = 0;
        #[verifier::loop_isolation(false)]
        while i < n
            invariant
                0 <= i <= n,
                n == self.items.len(),
                *self == *old(self),
                forall|j: int| 0 <= j < i ==> (#[trigger] self@[j]).0 != token@,
            decreases n - i,
        {
            if self.items[i].0 == *token {
                let c = self.items[i].1;
                proof {
                    lemma_bump_at_found(self@, token@, i as int);
                }
                assert(c as nat == self@[i as int].1);
                assert(c < u128::MAX) by {
                    lemma_total_split(self@, i as int);
                    assert(total_weight(self@.skip(i as int)) >= self@[i as int].1) by {
                        assert(self@.skip(i as int)[0] == self@[i as int]);
                    }
                }
                self.items.set(i, (token.clone(), c + 1));
                self.total = self.total + 1;
                assert(self@ =~= bump(old(self)@, token@));
                return ;
            }
            i = i + 1;
        }
        proof {
            lemma_bump_absent(self@, token@);
        }
        self.items.push((token.clone(), 1));
        self.total = self.total + 1;
        assert(self@ =~= bump(old(self)@, token@));
    }

    /// The entries of the set, in first-insertion order.
    pub fn into_entries(self) -> (r: Vec<(String, u128)>)
        ensures
            r@.map_values(|p: (String, u128)| (p.0@, p.1 as nat)) == self@,
    {
        self.items
    }

    /// Whether the set holds an entry for `token`.
    pub fn contains(&self, token: &String) -> (r: bool)
        ensures
            r == has_key(self@, token@),
    {
        let n = self.items.len();
        let mut i: usize = 0;
        #[verifier::loop_isolation(false)]
        while i < n
            invariant
                0 <= i <= n,
                n == self.items.len(),
                forall|j: int| 0 <= j < i ==> (#[trigger] self@[j]).0 != token@,
            decreases n - i,
        {
            if self.items[i].0 == *token {
                proof {
                    lemma_has_key_at(self@, token@, i as int);
                }
                return true;
            }
            i = i + 1;
        }
        proof {
            lemma_has_key_none(self@, token@);
        }
        false
    }

    /// Roulette-wheel selection over the counts: returns the candidate whose
    /// cumulative count range covers the draw point `d`.
    pub fn select(&self, d: u128) -> (r: String)
        requires
            self.inv(),
            (d as nat) < total_weight(self@),
        ensures
            r@ == roulette(self@, d as nat),
            has_key(self@, r@),
    {
        proof {
            lemma_roulette_has_key(self@, d as nat);
        }
        let n = self.items.len();
        let mut i: usize = 0;
        let mut rest: u128 = d;
        proof {
            assert(self@.skip(0) =~= self@);
        }
        #[verifier::loop_isolation(false)]
        while i < n
            invariant
                0 <= i <= n,
                n == self.items.len(),
                self.inv(),
                (rest as nat) < total_weight(self@.skip(i as int)),
                roulette(self@, d as nat) == roulette(self@.skip(i as int), rest as nat),
            decreases n - i,
        {
            let w = self.items[i].1;
            assert(self@.skip(i as int)[0] == self@[i as int]);
            if rest < w {
                assert(roulette(self@.skip(i as int), rest as nat) == self@[i as int].0);
                return self.items[i].0.clone();
            }
            assert(self@.skip(i as int).drop_first() =~= self@.skip(i as int + 1));
            rest = rest - w;
            i = i + 1;
        }
        proof {
            assert(self@.skip(n as int) =~= Seq::<(Seq<char>, nat)>::empty());
            assert(false);
        }
        String::new()
    }
}

} // verus!
