//! The model cache and the generation facade: one trained model per channel,
//! reused on every later request; a rebuild replaces the entry wholesale.

use vstd::prelude::*;

use crate::chain::Chain;
use crate::chain::ChainModel;
use crate::chain::seed_view;
use crate::chain::spec_generate;
use crate::chain::trained;
use crate::chain::valid_generation;
use crate::rng::random_below;
use crate::text::joined;
use crate::text::string_views;

verus! {

/// The fewest corpus messages a channel must have before a model is trained
/// for it: a smaller sample would produce degenerate output.
pub const MIN_CORPUS_MESSAGES: usize = 500;

/// A per-call length bound, drawn uniformly from 1 through 14.
fn random_max_words() -> (r: usize)
    ensures
        1 <= r <= 14,
{
    let d = random_below(14);
    1 + (d as usize)
}

/// The channel-to-model mapping a cache holds.
pub open spec fn entries_map(es: Seq<(u64, Chain)>) -> Map<u64, ChainModel>
    decreases es.len(),
{
    if es.len() == 0 {
        Map::empty()
    } else {
        entries_map(es.drop_last()).insert(es.last().0, es.last().1@)
    }
}

proof fn lemma_entries_map_at(es: Seq<(u64, Chain)>, i: int)
    requires
        forall|p: int, q: int| 0 <= p < q < es.len() ==> (#[trigger] es[p]).0 != (#[trigger] es[q]).0,
        0 <= i < es.len(),
    ensures
        entries_map(es).contains_key(es[i].0),
        entries_map(es)[es[i].0] == es[i].1@,
    decreases es.len(),
{
    if i < es.len() - 1 {
        assert(forall|p: int, q: int|
            0 <= p < q < es.drop_last().len() ==> (#[trigger] es.drop_last()[p]).0 != (
            #[trigger] es.drop_last()[q]).0);
        lemma_entries_map_at(es.drop_last(), i);
        assert(es.last().0 != es[i].0);
    }
}

proof fn lemma_entries_map_none(es: Seq<(u64, Chain)>, c: u64)
    requires
        forall|j: int| 0 <= j < es.len() ==> (#[trigger] es[j]).0 != c,
    ensures
        !entries_map(es).contains_key(c),
    decreases es.len(),
{
    if es.len() > 0 {
        assert(forall|j: int|
            0 <= j < es.drop_last().len() ==> (#[trigger] es.drop_last()[j]).0 == es[j].0 && es[j].0
                != c);
        lemma_entries_map_none(es.drop_last(), c);
    }
}

proof fn lemma_entries_map_update(es: Seq<(u64, Chain)>, i: int, ch: Chain)
    requires
        forall|p: int, q: int| 0 <= p < q < es.len() ==> (#[trigger] es[p]).0 != (#[trigger] es[q]).0,
        0 <= i < es.len(),
    ensures
        entries_map(es.update(i, (es[i].0, ch))) =~= entries_map(es).insert(es[i].0, ch@),
    decreases es.len(),
{
    let es2 = es.update(i, (es[i].0, ch));
    if i == es.len() - 1 {
        assert(es2.drop_last() =~= es.drop_last());
        assert(es2.last() == (es[i].0, ch));
    } else {
        assert(forall|p: int, q: int|
            0 <= p < q < es.drop_last().len() ==> (#[trigger] es.drop_last()[p]).0 != (
            #[trigger] es.drop_last()[q]).0);
        lemma_entries_map_update(es.drop_last(), i, ch);
        assert(es2.drop_last() =~= es.drop_last().update(i, (es[i].0, ch)));
        assert(es2.last() == es.last());
        assert(es.drop_last()[i] == es[i]);
        assert(es.last().0 != es[i].0);
    }
}

/// A cache of trained models, one entry per channel. An entry is never edited
/// in place: a rebuild replaces it wholesale.
pub struct ModelCache {
    entries: Vec<(u64, Chain)>,
}

impl View for ModelCache {
    type V = Map<u64, ChainModel>;

    closed spec fn view(&self) -> Map<u64, ChainModel> {
        entries_map(self.entries@)
    }
}

impl ModelCache {
    /// Well-formedness: one entry per channel, every model well-formed.
    pub closed spec fn inv(&self) -> bool {
        &&& forall|p: int, q: int|
            0 <= p < q < self.entries@.len() ==> (#[trigger] self.entries@[p]).0 != (
            #[trigger] self.entries@[q]).0
        &&& forall|i: int| 0 <= i < self.entries@.len() ==> (#[trigger] self.entries@[i]).1.inv()
    }

    /// An empty cache.
    pub fn new() -> (r: ModelCache)
        ensures
            r.inv(),
            r@ =~= Map::<u64, ChainModel>::empty(),
    {
        ModelCache { entries: Vec::new() }
    }

    fn find(&self, channel_id: u64) -> (r: Option<usize>)
        requires
            self.inv(),
        ensures
            match r {
                Some(i) => {
                    &&& i < self.entries@.len()
                    &&& self.entries@[i as int].0 == channel_id
                    &&& self@.contains_key(channel_id)
                    &&& self@[channel_id] == self.entries@[i as int].1@
                },
                None => !self@.contains_key(channel_id),
            },
    {
        let n = self.entries.len();
        let mut i: usize = 0;
        #[verifier::loop_isolation(false)]
        while i < n
            invariant
                0 <= i <= n,
                n == self.entries@.len(),
                forall|j: int| 0 <= j < i ==> (#[trigger] self.entries@[j]).0 != channel_id,
            decreases n - i,
        {
            if self.entries[i].0 == channel_id {
                proof {
                    lemma_entries_map_at(self.entries@, i as int);
                }
                return Some(i);
            }
            i = i + 1;
        }
        proof {
            lemma_entries_map_none(self.entries@, channel_id);
        }
        None
    }

    /// Whether a model is cached for the channel.
    pub fn has_model(&self, channel_id: u64) -> (r: bool)
        requires
            self.inv(),
        ensures
            r == self@.contains_key(channel_id),
    {
        match self.find(channel_id) {
            Some(_) => true,
            None => false,
        }
    }

    /// Cache a freshly trained model for the channel, replacing any earlier
    /// entry wholesale.
    fn store(&mut self, channel_id: u64, chain: Chain)
        requires
            old(self).inv(),
            chain.inv(),
        ensures
            final(self).inv(),
            final(self)@ =~= old(self)@.insert(channel_id, chain@),
    {
        match self.find(channel_id) {
            Some(i) => {
                proof {
                    lemma_entries_map_update(self.entries@, i as int, chain);
                }
                self.entries.set(i, (channel_id, chain));
            }
            None => {
                let ghost es = self.entries@;
                proof {
                    assert forall|j: int| 0 <= j < es.len() implies (#[trigger] es[j]).0
                        != channel_id by {
                        if es[j].0 == channel_id {
                            lemma_entries_map_at(es, j);
                        }
                    }
                }
                self.entries.push((channel_id, chain));
                proof {
                    assert(self.entries@.drop_last() =~= es);
                    assert(self.entries@.last() == (channel_id, chain));
                }
            }
        }
    }

    /// Generate from the cached model for the channel, if one exists, with a
    /// freshly randomized length bound. A cache hit never re-trains and never
    /// changes the cache; a miss returns nothing and the caller fetches the
    /// corpus and calls `train_and_generate`.
    pub fn generate_cached(&self, channel_id: u64, seed: Option<&str>) -> (r: Option<String>)
        requires
            self.inv(),
        ensures
            r is Some <==> self@.contains_key(channel_id),
            r is Some ==> exists|max: nat, toks: Seq<Seq<char>>|
                {
                    &&& 1 <= max <= 14
                    &&& #[trigger] valid_generation(self@[channel_id], seed_view(seed), max, toks)
                    &&& r->0@ == joined(toks)
                },
            r is Some ==> exists|max: nat, ds: Seq<u128>|
                1 <= max <= 14 && r->0@ == joined(
                    #[trigger] spec_generate(self@[channel_id], max, seed_view(seed), ds),
                ),
    {
        match self.find(channel_id) {
            Some(i) => {
                let max_words = random_max_words();
                let out = self.entries[i].1.generate(max_words, seed);
                proof {
                    let m = self.entries@[i as int].1@;
                    let toks = choose|toks: Seq<Seq<char>>|
                        out@ == joined(toks) && #[trigger] valid_generation(
                            m,
                            seed_view(seed),
                            max_words as nat,
                            toks,
                        );
                    assert(valid_generation(self@[channel_id], seed_view(seed), max_words as nat, toks));
                    let ds = choose|ds: Seq<u128>|
                        out@ == joined(
                            #[trigger] spec_generate(m, max_words as nat, seed_view(seed), ds),
                        );
                    assert(out@ == joined(
                        spec_generate(self@[channel_id], max_words as nat, seed_view(seed), ds),
                    ));
                }
                Some(out)
            }
            None => None,
        }
    }

    /// Train a model on the fetched corpus, cache it, and generate from it —
    /// unless the corpus is too small, in which case nothing is trained, the
    /// cache is unchanged, and no sentence is produced.
    pub fn train_and_generate(&mut self, channel_id: u64, corpus: Vec<String>, seed: Option<&str>)
        -> (r: Option<String>)
        requires
            old(self).inv(),
        ensures
            final(self).inv(),
            r is Some <==> corpus@.len() >= MIN_CORPUS_MESSAGES,
            corpus@.len() < MIN_CORPUS_MESSAGES ==> final(self)@ == old(self)@,
            corpus@.len() >= MIN_CORPUS_MESSAGES ==> {
                let model = trained(ChainModel::empty(), string_views(corpus@), 0);
                &&& final(self)@ =~= old(self)@.insert(channel_id, model)
                &&& exists|max: nat, toks: Seq<Seq<char>>|
                    {
                        &&& 1 <= max <= 14
                        &&& #[trigger] valid_generation(model, seed_view(seed), max, toks)
                        &&& r->0@ == joined(toks)
                    }
                &&& exists|max: nat, ds: Seq<u128>|
                    1 <= max <= 14 && r->0@ == joined(
                        #[trigger] spec_generate(model, max, seed_view(seed), ds),
                    )
            },
    {
        if corpus.len() < MIN_CORPUS_MESSAGES {
            return None;
        }
        let ghost corpus_views = string_views(corpus@);
        let mut chain = Chain::new();
        chain.train(corpus);
        let max_words = random_max_words();
        let out = chain.generate(max_words, seed);
        proof {
            let model = trained(ChainModel::empty(), corpus_views, 0);
            assert(chain@ == model);
            let toks = choose|toks: Seq<Seq<char>>|
                out@ == joined(toks) && #[trigger] valid_generation(
                    chain@,
                    seed_view(seed),
                    max_words as nat,
                    toks,
                );
            assert(valid_generation(model, seed_view(seed), max_words as nat, toks));
            let ds = choose|ds: Seq<u128>|
                out@ == joined(#[trigger] spec_generate(chain@, max_words as nat, seed_view(seed), ds));
            assert(out@ == joined(spec_generate(model, max_words as nat, seed_view(seed), ds)));
        }
        self.store(channel_id, chain);
        Some(out)
    }
}

} // verus!
