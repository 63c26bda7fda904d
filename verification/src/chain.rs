//! The transition model: training over a corpus of messages, and weighted
//! random generation of new sentences from the trained model.

use vstd::arithmetic::div_mod::lemma_mod_bound;
use vstd::arithmetic::div_mod::lemma_small_mod;
use vstd::prelude::*;

use crate::rng::random_below;
use crate::text::fold_case;
use crate::text::folded;
use crate::text::folded_tokens;
use crate::text::join_with_spaces;
use crate::text::joined;
use crate::text::string_views;
use crate::weights::WeightSeq;
use crate::weights::WeightedBag;
use crate::weights::bump;
use crate::weights::counts_positive;
use crate::weights::has_key;
use crate::weights::lemma_bump_counts_positive;
use crate::weights::lemma_bump_len;
use crate::weights::lemma_bump_total;
use crate::weights::lemma_roulette_has_key;
use crate::weights::roulette;
use crate::weights::total_weight;

verus! {

/// The contexts of a model: each token that was seen to precede another, with
/// the weighted set of tokens that followed it, in first-insertion order.
pub type ContextSeq = Seq<(Seq<char>, WeightSeq)>;

/// Whether `k` is a known context.
pub open spec fn ctx_has(cs: ContextSeq, k: Seq<char>) -> bool
    decreases cs.len(),
{
    if cs.len() == 0 {
        false
    } else {
        cs[0].0 == k || ctx_has(cs.drop_first(), k)
    }
}

/// The candidate set recorded under context `k` (at its first entry), or the
/// empty set if `k` is unknown.
pub open spec fn ctx_cands(cs: ContextSeq, k: Seq<char>) -> WeightSeq
    decreases cs.len(),
{
    if cs.len() == 0 {
        Seq::empty()
    } else if cs[0].0 == k {
        cs[0].1
    } else {
        ctx_cands(cs.drop_first(), k)
    }
}

/// Record one observation of token `b` following token `a`.
pub open spec fn ctx_bump(cs: ContextSeq, a: Seq<char>, b: Seq<char>) -> ContextSeq
    decreases cs.len(),
{
    if cs.len() == 0 {
        seq![(a, seq![(b, 1 as nat)])]
    } else if cs[0].0 == a {
        seq![(cs[0].0, bump(cs[0].1, b))] + cs.drop_first()
    } else {
        seq![cs[0]] + ctx_bump(cs.drop_first(), a, b)
    }
}

/// The number of adjacent-pair observations the contexts record in all.
pub open spec fn ctx_pairs(cs: ContextSeq) -> nat
    decreases cs.len(),
{
    if cs.len() == 0 {
        0
    } else {
        total_weight(cs[0].1) + ctx_pairs(cs.drop_first())
    }
}

/// Every context maps to a non-empty candidate set with positive counts.
pub open spec fn contexts_wf(cs: ContextSeq) -> bool {
    forall|i: int|
        0 <= i < cs.len() ==> (#[trigger] cs[i]).1.len() > 0 && counts_positive(cs[i].1)
}

/// Abstract value of a trained model: the transition contexts and the set of
/// tokens that began a training message.
#[verifier::ext_equal]
pub struct ChainModel {
    pub contexts: ContextSeq,
    pub starts: WeightSeq,
}

impl ChainModel {
    /// The model with nothing trained into it.
    pub open spec fn empty() -> ChainModel {
        ChainModel { contexts: Seq::empty(), starts: Seq::empty() }
    }

    /// The model invariant: candidate sets are non-empty, all counts positive.
    pub open spec fn wf(self) -> bool {
        &&& contexts_wf(self.contexts)
        &&& counts_positive(self.starts)
    }
}

/// Record every adjacent pair of `toks` from position `i` on.
pub open spec fn observe_pairs(cs: ContextSeq, toks: Seq<Seq<char>>, i: int) -> ContextSeq
    decreases toks.len() - i,
{
    if i < 0 || i + 1 >= toks.len() {
        cs
    } else {
        observe_pairs(ctx_bump(cs, toks[i], toks[i + 1]), toks, i + 1)
    }
}

/// Train one message, given as its folded tokens: its first token joins the
/// start set, and every adjacent pair is recorded as a transition. Messages
/// are independent: no pair crosses from one message into another.
pub open spec fn trained_one(m: ChainModel, toks: Seq<Seq<char>>) -> ChainModel {
    if toks.len() == 0 {
        m
    } else {
        ChainModel {
            starts: bump(m.starts, toks[0]),
            contexts: observe_pairs(m.contexts, toks, 0),
        }
    }
}

/// Train the messages from position `i` on, each split and case-folded.
pub open spec fn trained(m: ChainModel, msgs: Seq<Seq<char>>, i: int) -> ChainModel
    decreases msgs.len() - i,
{
    if i < 0 || i >= msgs.len() {
        m
    } else {
        trained(trained_one(m, folded_tokens(msgs[i])), msgs, i + 1)
    }
}

proof fn lemma_ctx_bump_found(cs: ContextSeq, a: Seq<char>, b: Seq<char>, i: int)
    requires
        0 <= i < cs.len(),
        cs[i].0 == a,
        forall|j: int| 0 <= j < i ==> (#[trigger] cs[j]).0 != a,
    ensures
        ctx_bump(cs, a, b) =~= cs.update(i, (cs[i].0, bump(cs[i].1, b))),
    decreases cs.len(),
{
    if i == 0 {
        assert(ctx_bump(cs, a, b) =~= cs.update(0, (cs[0].0, bump(cs[0].1, b))));
    } else {
        assert(cs.drop_first()[i - 1].0 == a);
        assert(forall|j: int|
            0 <= j < i - 1 ==> (#[trigger] cs.drop_first()[j]).0 == cs[j + 1].0 && cs[j + 1].0
                != a);
        lemma_ctx_bump_found(cs.drop_first(), a, b, i - 1);
        assert(ctx_bump(cs, a, b) =~= cs.update(i, (cs[i].0, bump(cs[i].1, b))));
    }
}

proof fn lemma_ctx_bump_absent(cs: ContextSeq, a: Seq<char>, b: Seq<char>)
    requires
        forall|j: int| 0 <= j < cs.len() ==> (#[trigger] cs[j]).0 != a,
    ensures
        ctx_bump(cs, a, b) =~= cs.push((a, seq![(b, 1 as nat)])),
    decreases cs.len(),
{
    if cs.len() > 0 {
        assert(forall|j: int|
            0 <= j < cs.drop_first().len() ==> (#[trigger] cs.drop_first()[j]).0 == cs[j + 1].0
                && cs[j + 1].0 != a);
        lemma_ctx_bump_absent(cs.drop_first(), a, b);
        assert(ctx_bump(cs, a, b) =~= cs.push((a, seq![(b, 1 as nat)])));
    }
}

proof fn lemma_ctx_first_match(cs: ContextSeq, k: Seq<char>, i: int)
    requires
        0 <= i < cs.len(),
        cs[i].0 == k,
        forall|j: int| 0 <= j < i ==> (#[trigger] cs[j]).0 != k,
    ensures
        ctx_has(cs, k),
        ctx_cands(cs, k) == cs[i].1,
    decreases cs.len(),
{
    if i > 0 {
        assert(cs.drop_first()[i - 1].0 == k);
        assert(forall|j: int|
            0 <= j < i - 1 ==> (#[trigger] cs.drop_first()[j]).0 == cs[j + 1].0 && cs[j + 1].0
                != k);
        lemma_ctx_first_match(cs.drop_first(), k, i - 1);
    }
}

proof fn lemma_ctx_no_match(cs: ContextSeq, k: Seq<char>)
    requires
        forall|j: int| 0 <= j < cs.len() ==> (#[trigger] cs[j]).0 != k,
    ensures
        !ctx_has(cs, k),
    decreases cs.len(),
{
    if cs.len() > 0 {
        assert(forall|j: int|
            0 <= j < cs.drop_first().len() ==> (#[trigger] cs.drop_first()[j]).0 == cs[j + 1].0
                && cs[j + 1].0 != k);
        lemma_ctx_no_match(cs.drop_first(), k);
    }
}

/// Each pair observation raises the total pair count by exactly one.
pub proof fn lemma_ctx_bump_pairs(cs: ContextSeq, a: Seq<char>, b: Seq<char>)
    ensures
        ctx_pairs(ctx_bump(cs, a, b)) == ctx_pairs(cs) + 1,
    decreases cs.len(),
{
    let x = ctx_bump(cs, a, b);
    if cs.len() == 0 {
        assert(x.drop_first() =~= Seq::<(Seq<char>, WeightSeq)>::empty());
        assert(seq![(b, 1 as nat)].drop_first() =~= Seq::<(Seq<char>, nat)>::empty());
        assert(total_weight(seq![(b, 1 as nat)]) == 1 + total_weight(
            seq![(b, 1 as nat)].drop_first(),
        ));
        assert(x[0].1 == seq![(b, 1 as nat)]);
        assert(ctx_pairs(x) == total_weight(x[0].1) + ctx_pairs(x.drop_first()));
    } else if cs[0].0 == a {
        lemma_bump_total(cs[0].1, b);
        assert(x.drop_first() =~= cs.drop_first());
        assert(x[0].1 == bump(cs[0].1, b));
        assert(ctx_pairs(x) == total_weight(x[0].1) + ctx_pairs(x.drop_first()));
        assert(ctx_pairs(cs) == total_weight(cs[0].1) + ctx_pairs(cs.drop_first()));
    } else {
        lemma_ctx_bump_pairs(cs.drop_first(), a, b);
        assert(x.drop_first() =~= ctx_bump(cs.drop_first(), a, b));
        assert(x[0] == cs[0]);
        assert(ctx_pairs(x) == total_weight(x[0].1) + ctx_pairs(x.drop_first()));
        assert(ctx_pairs(cs) == total_weight(cs[0].1) + ctx_pairs(cs.drop_first()));
    }
}

/// No candidate set outweighs the total pair count.
pub proof fn lemma_ctx_pairs_elem(cs: ContextSeq, i: int)
    requires
        0 <= i < cs.len(),
    ensures
        total_weight(cs[i].1) <= ctx_pairs(cs),
    decreases cs.len(),
{
    if i > 0 {
        lemma_ctx_pairs_elem(cs.drop_first(), i - 1);
        assert(cs.drop_first()[i - 1] == cs[i]);
    }
}

/// A pair observation preserves the model invariant on the contexts.
pub proof fn lemma_ctx_bump_wf(cs: ContextSeq, a: Seq<char>, b: Seq<char>)
    requires
        contexts_wf(cs),
    ensures
        contexts_wf(ctx_bump(cs, a, b)),
    decreases cs.len(),
{
    if cs.len() == 0 {
        assert(ctx_bump(cs, a, b)[0].1 =~= seq![(b, 1 as nat)]);
        assert(counts_positive(seq![(b, 1 as nat)]));
    } else if cs[0].0 == a {
        lemma_bump_counts_positive(cs[0].1, b);
        lemma_bump_len(cs[0].1, b);
        assert(forall|i: int|
            1 <= i < ctx_bump(cs, a, b).len() ==> (#[trigger] ctx_bump(cs, a, b)[i]) == cs[i]);
    } else {
        assert(contexts_wf(cs.drop_first())) by {
            assert(forall|i: int|
                0 <= i < cs.drop_first().len() ==> (#[trigger] cs.drop_first()[i]) == cs[i + 1]);
        }
        lemma_ctx_bump_wf(cs.drop_first(), a, b);
        assert(forall|i: int|
            1 <= i < ctx_bump(cs, a, b).len() ==> (#[trigger] ctx_bump(cs, a, b)[i]) == ctx_bump(
                cs.drop_first(),
                a,
                b,
            )[i - 1]);
        assert(ctx_bump(cs, a, b)[0] == cs[0]);
    }
}

/// The views of the context entries of a trained chain.
pub open spec fn ctx_views(cs: Seq<(String, WeightedBag)>) -> ContextSeq {
    cs.map_values(|p: (String, WeightedBag)| (p.0@, p.1@))
}

/// Record one observation of `*b` following `*a`.
fn observe_pair(contexts: &mut Vec<(String, WeightedBag)>, a: &String, b: &String)
    requires
        forall|i: int|
            0 <= i < old(contexts)@.len() ==> (#[trigger] old(contexts)@[i]).1.inv(),
        contexts_wf(ctx_views(old(contexts)@)),
        ctx_pairs(ctx_views(old(contexts)@)) < u128::MAX,
    ensures
        forall|i: int| 0 <= i < final(contexts)@.len() ==> (#[trigger] final(contexts)@[i]).1.inv(),
        contexts_wf(ctx_views(final(contexts)@)),
        ctx_views(final(contexts)@) =~= ctx_bump(ctx_views(old(contexts)@), a@, b@),
{
    proof {
        lemma_ctx_bump_wf(ctx_views(contexts@), a@, b@);
    }
    let n = contexts.len();
    let mut i: usize = 0;
    #[verifier::loop_isolation(false)]
    while i < n
        invariant
            0 <= i <= n,
            n == contexts@.len(),
            *contexts == *old(contexts),
            forall|j: int| 0 <= j < i ==> (#[trigger] ctx_views(contexts@)[j]).0 != a@,
        decreases n - i,
    {
        if contexts[i].0 == *a {
            proof {
                lemma_ctx_bump_found(ctx_views(contexts@), a@, b@, i as int);
                lemma_ctx_pairs_elem(ctx_views(contexts@), i as int);
                assert(ctx_views(contexts@)[i as int].1 == contexts@[i as int].1@);
            }
            contexts[i].1.record(b);
            proof {
                assert(ctx_views(contexts@) =~= ctx_views(old(contexts)@).update(
                    i as int,
                    (old(contexts)@[i as int].0@, bump(old(contexts)@[i as int].1@, b@)),
                ));
            }
            return ;
        }
        i = i + 1;
    }
    proof {
        lemma_ctx_no_match(ctx_views(contexts@), a@);
        lemma_ctx_bump_absent(ctx_views(contexts@), a@, b@);
    }
    let mut bag = WeightedBag::empty();
    bag.record(b);
    contexts.push((a.clone(), bag));
    proof {
        assert(ctx_views(contexts@) =~= ctx_views(old(contexts)@).push((a@, seq![(b@, 1 as nat)])));
    }
}

/// A trained first-order transition model together with its start set.
pub struct Chain {
    contexts: Vec<(String, WeightedBag)>,
    starts: WeightedBag,
}

impl View for Chain {
    type V = ChainModel;

    closed spec fn view(&self) -> ChainModel {
        ChainModel { contexts: ctx_views(self.contexts@), starts: self.starts@ }
    }
}

impl Chain {
    /// Well-formedness of the trained chain.
    pub closed spec fn inv(&self) -> bool {
        &&& self.starts.inv()
        &&& forall|i: int| 0 <= i < self.contexts@.len() ==> (#[trigger] self.contexts@[i]).1.inv()
        &&& contexts_wf(self@.contexts)
    }

    /// An untrained chain.
    pub fn new() -> (r: Chain)
        ensures
            r.inv(),
            r@ =~= ChainModel::empty(),
    {
        let r = Chain { contexts: Vec::new(), starts: WeightedBag::empty() };
        proof {
            assert(ctx_views(r.contexts@) =~= Seq::<(Seq<char>, WeightSeq)>::empty());
        }
        r
    }

    /// Train the model on a corpus of messages. Each message is split on
    /// whitespace and case-folded; its first token joins the start set and
    /// each adjacent pair becomes a transition. Training always replaces the
    /// whole model: nothing from an earlier corpus survives.
    pub fn train(&mut self, messages: Vec<String>)
        ensures
            final(self).inv(),
            final(self)@ =~= trained(ChainModel::empty(), string_views(messages@), 0),
            final(self)@.wf(),
    {
        self.contexts = Vec::new();
        self.starts = WeightedBag::empty();
        let ghost msgs = string_views(messages@);
        proof {
            assert(ctx_views(self.contexts@) =~= Seq::<(Seq<char>, WeightSeq)>::empty());
            assert(self@ =~= ChainModel::empty());
        }
        let n = messages.len();
        let mut mi: usize = 0;
        #[verifier::loop_isolation(false)]
        while mi < n
            invariant
                0 <= mi <= n,
                n == messages@.len(),
                self.inv(),
                trained(ChainModel::empty(), msgs, 0) =~= trained(self@, msgs, mi as int),
                total_weight(self@.starts) <= mi,
                ctx_pairs(self@.contexts) <= (mi as int) * 0xffff_ffff_ffff_ffff,
            decreases n - mi,
        {
            let toks = message_tokens_of(&messages[mi]);
            let ghost tv = folded_tokens(msgs[mi as int]);
            let ghost m_before = self@;
            proof {
                assert(string_views(toks@) =~= tv);
                assert(toks@.len() <= 0xffff_ffff_ffff_ffff);
            }
            if toks.len() > 0 {
                self.starts.record(&toks[0]);
                proof {
                    assert(toks@[0]@ == tv[0]);
                    assert(self@.starts =~= bump(m_before.starts, tv[0]));
                }
                let k = toks.len();
                let mut j: usize = 0;
                #[verifier::loop_isolation(false)]
                while j + 1 < k
                    invariant
                        0 <= j < k,
                        k == toks@.len(),
                        self.inv(),
                        self@.starts == bump(m_before.starts, tv[0]),
                        observe_pairs(m_before.contexts, tv, 0) =~= observe_pairs(
                            self@.contexts,
                            tv,
                            j as int,
                        ),
                        ctx_pairs(self@.contexts) <= (mi as int) * 0xffff_ffff_ffff_ffff + j,
                    decreases k - j,
                {
                    proof {
                        assert(ctx_pairs(self@.contexts) < u128::MAX) by {
                            assert((mi as int) * 0xffff_ffff_ffff_ffff <= 0xffff_ffff_ffff_ffff
                                * 0xffff_ffff_ffff_ffff);
                        }
                        lemma_ctx_bump_pairs(self@.contexts, tv[j as int], tv[j + 1]);
                        assert(toks@[j as int]@ == tv[j as int]);
                        assert(toks@[j + 1]@ == tv[j + 1]);
                    }
                    observe_pair(&mut self.contexts, &toks[j], &toks[j + 1]);
                    j = j + 1;
                }
                proof {
                    assert(observe_pairs(self@.contexts, tv, j as int) =~= self@.contexts);
                    assert(self@ =~= trained_one(m_before, tv));
                }
            } else {
                proof {
                    assert(tv.len() == 0);
                    assert(self@ =~= trained_one(m_before, tv));
                }
            }
            proof {
                assert(msgs[mi as int] == messages@[mi as int]@);
                assert(trained(m_before, msgs, mi as int) =~= trained(
                    trained_one(m_before, tv),
                    msgs,
                    mi + 1,
                ));
            }
            mi = mi + 1;
        }
        proof {
            assert(trained(self@, msgs, n as int) =~= self@);
            self.starts.lemma_inv_counts_positive();
        }
    }
}

/// Split one message on whitespace and case-fold its tokens.
fn message_tokens_of(m: &String) -> (toks: Vec<String>)
    ensures
        string_views(toks@) =~= folded_tokens(m@),
{
    crate::text::message_tokens(m.as_str())
}

/// Whether a seed word names a known context or start token, compared after
/// case-folding.
pub open spec fn seed_matches(m: ChainModel, sd: Seq<char>) -> bool {
    ctx_has(m.contexts, folded(sd)) || has_key(m.starts, folded(sd))
}

/// The view of an optional seed word.
pub open spec fn seed_view(sd: Option<&str>) -> Option<Seq<char>> {
    match sd {
        Some(s) => Some(s@),
        None => None,
    }
}

/// Whether generation can emit at least one token: either the seed matches
/// the model, or the start set is non-empty.
pub open spec fn can_start(m: ChainModel, sd: Option<Seq<char>>) -> bool {
    (sd is Some && seed_matches(m, sd->0)) || total_weight(m.starts) > 0
}

/// The weighted random walk: starting from context key `ck` with the tokens
/// `acc` already emitted, take up to `left` more steps, consuming draw points
/// from `draws` at position `di`. A context with no candidates is a dead end
/// and ends the walk early.
pub open spec fn walk_rec(
    m: ChainModel,
    ck: Seq<char>,
    acc: Seq<Seq<char>>,
    left: nat,
    draws: Seq<u128>,
    di: int,
) -> Seq<Seq<char>>
    decreases left,
{
    if left == 0 {
        acc
    } else if !ctx_has(m.contexts, ck) || total_weight(ctx_cands(m.contexts, ck)) == 0 {
        acc
    } else {
        let cands = ctx_cands(m.contexts, ck);
        let d = if 0 <= di < draws.len() {
            (draws[di] as nat) % total_weight(cands)
        } else {
            0
        };
        let t = roulette(cands, d);
        walk_rec(m, t, acc.push(t), (left - 1) as nat, draws, di + 1)
    }
}

/// What generation returns, as a function of the model, the length bound, the
/// seed and the sequence of random draw points. A matching seed is emitted
/// verbatim and the walk continues from its folded form; otherwise the walk
/// starts from a weighted pick out of the start set; if neither is possible
/// the result is empty.
pub open spec fn spec_generate(
    m: ChainModel,
    max: nat,
    sd: Option<Seq<char>>,
    draws: Seq<u128>,
) -> Seq<Seq<char>> {
    if max == 0 {
        Seq::empty()
    } else if sd is Some && seed_matches(m, sd->0) {
        walk_rec(m, folded(sd->0), seq![sd->0], (max - 1) as nat, draws, 0)
    } else if total_weight(m.starts) > 0 {
        let d0 = if draws.len() > 0 {
            (draws[0] as nat) % total_weight(m.starts)
        } else {
            0
        };
        let t = roulette(m.starts, d0);
        walk_rec(m, t, seq![t], (max - 1) as nat, draws, 1)
    } else {
        Seq::empty()
    }
}

/// The context key that position `i` of a generated sentence was looked up
/// under: the folded seed for a seeded first token, else the token itself.
pub open spec fn gen_key(m: ChainModel, sd: Option<Seq<char>>, toks: Seq<Seq<char>>, i: int) -> Seq<
    char,
> {
    if i == 0 && sd is Some && seed_matches(m, sd->0) {
        folded(toks[0])
    } else {
        toks[i]
    }
}

/// Everything that holds of any generated sentence:
/// it is bounded by `max`; it is empty exactly when nothing can start it;
/// a matching seed is honored verbatim and an unknown or absent seed falls
/// back to the start set; every later token was a recorded candidate of the
/// token before it; and a short sentence ends only at a dead end.
pub open spec fn valid_generation(
    m: ChainModel,
    sd: Option<Seq<char>>,
    max: nat,
    toks: Seq<Seq<char>>,
) -> bool {
    &&& toks.len() <= max
    &&& (toks.len() == 0 <==> (max == 0 || !can_start(m, sd)))
    &&& (toks.len() > 0 ==> (if sd is Some && seed_matches(m, sd->0) {
        toks[0] == sd->0
    } else {
        has_key(m.starts, toks[0])
    }))
    &&& (forall|i: int|
        1 <= i < toks.len() ==> has_key(
            ctx_cands(m.contexts, gen_key(m, sd, toks, i - 1)),
            #[trigger] toks[i],
        ))
    &&& (0 < toks.len() < max ==> {
        let lk = gen_key(m, sd, toks, toks.len() - 1);
        !ctx_has(m.contexts, lk) || total_weight(ctx_cands(m.contexts, lk)) == 0
    })
}

proof fn lemma_walk_props(
    m: ChainModel,
    ck: Seq<char>,
    acc: Seq<Seq<char>>,
    left: nat,
    draws: Seq<u128>,
    di: int,
)
    requires
        acc.len() > 0,
    ensures
        ({
            let r = walk_rec(m, ck, acc, left, draws, di);
            &&& acc.len() <= r.len() <= acc.len() + left
            &&& forall|i: int| 0 <= i < acc.len() ==> r[i] == acc[i]
            &&& (r.len() > acc.len() ==> has_key(
                ctx_cands(m.contexts, ck),
                r[acc.len() as int],
            ))
            &&& (forall|i: int|
                acc.len() < i < r.len() ==> has_key(
                    ctx_cands(m.contexts, r[i - 1]),
                    #[trigger] r[i],
                ))
            &&& (r.len() < acc.len() + left ==> {
                let lk = if r.len() == acc.len() {
                    ck
                } else {
                    r[r.len() - 1]
                };
                !ctx_has(m.contexts, lk) || total_weight(ctx_cands(m.contexts, lk)) == 0
            })
        }),
    decreases left,
{
    let r = walk_rec(m, ck, acc, left, draws, di);
    if left == 0 {
    } else if !ctx_has(m.contexts, ck) || total_weight(ctx_cands(m.contexts, ck)) == 0 {
    } else {
        let cands = ctx_cands(m.contexts, ck);
        let d = if 0 <= di < draws.len() {
            (draws[di] as nat) % total_weight(cands)
        } else {
            0
        };
        assert(d < total_weight(cands)) by {
            if 0 <= di < draws.len() {
                lemma_mod_bound(
                    draws[di] as int,
                    total_weight(cands) as int,
                );
            }
        }
        let t = roulette(cands, d);
        lemma_roulette_has_key(cands, d);
        lemma_walk_props(m, t, acc.push(t), (left - 1) as nat, draws, di + 1);
        assert(acc.push(t)[acc.len() as int] == t);
        assert(r[acc.len() as int] == t);
    }
}

/// Every run of the generation semantics is a valid generation: the length
/// is bounded, seeds are honored with fallback, every transition was trained,
/// and only a dead end cuts a sentence short.
pub proof fn lemma_generation_valid(
    m: ChainModel,
    max: nat,
    sd: Option<Seq<char>>,
    draws: Seq<u128>,
)
    ensures
        valid_generation(m, sd, max, spec_generate(m, max, sd, draws)),
{
    let toks = spec_generate(m, max, sd, draws);
    if max == 0 {
    } else if sd is Some && seed_matches(m, sd->0) {
        let ck = folded(sd->0);
        let acc = seq![sd->0];
        lemma_walk_props(m, ck, acc, (max - 1) as nat, draws, 0);
        assert(toks[0] == sd->0);
        assert(gen_key(m, sd, toks, 0) == folded(sd->0));
        assert(forall|i: int|
            1 <= i < toks.len() ==> has_key(
                ctx_cands(m.contexts, gen_key(m, sd, toks, i - 1)),
                #[trigger] toks[i],
            ));
    } else if total_weight(m.starts) > 0 {
        let d0 = if draws.len() > 0 {
            (draws[0] as nat) % total_weight(m.starts)
        } else {
            0
        };
        assert(d0 < total_weight(m.starts)) by {
            if draws.len() > 0 {
                lemma_mod_bound(
                    draws[0] as int,
                    total_weight(m.starts) as int,
                );
            }
        }
        let t = roulette(m.starts, d0);
        lemma_roulette_has_key(m.starts, d0);
        lemma_walk_props(m, t, seq![t], (max - 1) as nat, draws, 1);
        assert(toks[0] == t);
        assert(forall|i: int|
            1 <= i < toks.len() ==> has_key(
                ctx_cands(m.contexts, gen_key(m, sd, toks, i - 1)),
                #[trigger] toks[i],
            ));
    }
}

impl Chain {
    /// The index of the first context entry for `key`, if any.
    fn find_context(&self, key: &String) -> (r: Option<usize>)
        requires
            self.inv(),
        ensures
            match r {
                Some(i) => {
                    &&& i < self.contexts_len()
                    &&& ctx_has(self@.contexts, key@)
                    &&& ctx_cands(self@.contexts, key@) == self@.contexts[i as int].1
                },
                None => !ctx_has(self@.contexts, key@),
            },
    {
        let n = self.contexts.len();
        let mut i: usize = 0;
        #[verifier::loop_isolation(false)]
        while i < n
            invariant
                0 <= i <= n,
                n == self.contexts@.len(),
                forall|j: int| 0 <= j < i ==> (#[trigger] ctx_views(self.contexts@)[j]).0 != key@,
            decreases n - i,
        {
            if self.contexts[i].0 == *key {
                proof {
                    lemma_ctx_first_match(self@.contexts, key@, i as int);
                }
                return Some(i);
            }
            i = i + 1;
        }
        proof {
            lemma_ctx_no_match(self@.contexts, key@);
        }
        None
    }

    /// The number of known contexts.
    pub closed spec fn contexts_len(&self) -> int {
        self.contexts@.len() as int
    }

    /// Generate one sentence of at most `max_words` tokens, taking every
    /// draw point from `draws`: the result is a pure function of the model,
    /// the bound, the seed and the draws.
    pub fn generate_with_draws(&self, max_words: usize, seed: Option<&str>, draws: &Vec<u128>) -> (r:
        String)
        requires
            self.inv(),
            draws@.len() >= max_words,
        ensures
            r@ == joined(spec_generate(self@, max_words as nat, seed_view(seed), draws@)),
    {
        let ghost sv = seed_view(seed);
        let ghost target = spec_generate(self@, max_words as nat, sv, draws@);
        if max_words == 0 {
            proof {
                assert(joined(target) =~= Seq::<char>::empty());
            }
            return String::new();
        }
        let mut toks: Vec<String> = Vec::new();
        let mut ck: String = String::new();
        let mut di: usize = 0;
        let mut started = false;
        if let Some(sd) = seed {
            let fk = fold_case(sd);
            let known = match self.find_context(&fk) {
                Some(_) => true,
                None => self.starts.contains(&fk),
            };
            if known {
                toks.push(sd.to_owned());
                ck = fk;
                started = true;
                proof {
                    assert(seed_matches(self@, sv->0));
                    assert(string_views(toks@) =~= seq![sv->0]);
                }
            } else {
                proof {
                    assert(!seed_matches(self@, sv->0));
                }
            }
        }
        if !started {
            let st = self.starts.total();
            if st == 0 {
                proof {
                    assert(target =~= Seq::<Seq<char>>::empty());
                    assert(joined(target) =~= Seq::<char>::empty());
                }
                return String::new();
            }
            let d0 = draws[0] % st;
            proof {
                lemma_mod_bound(draws@[0] as int, st as int);
            }
            let t = self.starts.select(d0);
            ck = t.clone();
            toks.push(t);
            di = 1;
            started = true;
            proof {
                assert(string_views(toks@) =~= seq![
                    roulette(self@.starts, (draws@[0] as nat) % total_weight(self@.starts)),
                ]);
            }
        }
        let mut count: usize = 1;
        let mut done = false;
        proof {
            assert(target == walk_rec(
                self@,
                ck@,
                string_views(toks@),
                (max_words - count) as nat,
                draws@,
                di as int,
            ));
        }
        #[verifier::loop_isolation(false)]
        while count < max_words && !done
            invariant
                1 <= count <= max_words,
                count == toks@.len(),
                di <= count,
                target == walk_rec(
                    self@,
                    ck@,
                    string_views(toks@),
                    (max_words - count) as nat,
                    draws@,
                    di as int,
                ),
                done ==> target == string_views(toks@),
            decreases max_words - count + (if done {
                0int
            } else {
                1int
            }),
        {
            match self.find_context(&ck) {
                None => {
                    done = true;
                }
                Some(idx) => {
                    proof {
                        assert(ctx_views(self.contexts@)[idx as int].1 == self.contexts@[idx
                            as int].1@);
                    }
                    let bt = self.contexts[idx].1.total();
                    if bt == 0 {
                        done = true;
                    } else {
                        let d = draws[di] % bt;
                        proof {
                            lemma_mod_bound(draws@[di as int] as int, bt as int);
                        }
                        let t = self.contexts[idx].1.select(d);
                        proof {
                            assert(string_views(toks@.push(t)) =~= string_views(toks@).push(t@));
                        }
                        ck = t.clone();
                        toks.push(t);
                        di = di + 1;
                        count = count + 1;
                    }
                }
            }
        }
        proof {
            assert(target == string_views(toks@));
        }
        join_with_spaces(&toks)
    }

    /// Generate one sentence of at most `max_words` tokens, drawing every
    /// selection uniformly at random. The result is always some run of the
    /// deterministic generation semantics, and so a valid generation.
    pub fn generate(&self, max_words: usize, seed: Option<&str>) -> (r: String)
        requires
            self.inv(),
        ensures
            exists|ds: Seq<u128>|
                r@ == joined(#[trigger] spec_generate(self@, max_words as nat, seed_view(seed), ds)),
            exists|toks: Seq<Seq<char>>|
                r@ == joined(toks) && #[trigger] valid_generation(
                    self@,
                    seed_view(seed),
                    max_words as nat,
                    toks,
                ),
    {
        let ghost sv = seed_view(seed);
        let ghost maxn = max_words as nat;
        if max_words == 0 {
            proof {
                assert(spec_generate(self@, maxn, sv, Seq::<u128>::empty()) =~= Seq::<
                    Seq<char>,
                >::empty());
                assert(joined(Seq::<Seq<char>>::empty()) =~= Seq::<char>::empty());
                lemma_generation_valid(self@, maxn, sv, Seq::<u128>::empty());
            }
            return String::new();
        }
        let mut toks: Vec<String> = Vec::new();
        let mut ck: String = String::new();
        let ghost mut dsg: Seq<u128> = Seq::empty();
        let mut started = false;
        if let Some(sd) = seed {
            let fk = fold_case(sd);
            let known = match self.find_context(&fk) {
                Some(_) => true,
                None => self.starts.contains(&fk),
            };
            if known {
                toks.push(sd.to_owned());
                ck = fk;
                started = true;
                proof {
                    assert(seed_matches(self@, sv->0));
                    assert(string_views(toks@) =~= seq![sv->0]);
                    assert forall|ext: Seq<u128>|
                        #[trigger] spec_generate(self@, maxn, sv, dsg + ext) == walk_rec(
                            self@,
                            ck@,
                            string_views(toks@),
                            (maxn - 1) as nat,
                            dsg + ext,
                            dsg.len() as int,
                        ) by {
                        assert(dsg + ext =~= ext);
                    }
                }
            } else {
                proof {
                    assert(!seed_matches(self@, sv->0));
                }
            }
        }
        if !started {
            let st = self.starts.total();
            if st == 0 {
                proof {
                    assert(spec_generate(self@, maxn, sv, Seq::<u128>::empty()) =~= Seq::<
                        Seq<char>,
                    >::empty());
                    assert(joined(Seq::<Seq<char>>::empty()) =~= Seq::<char>::empty());
                    lemma_generation_valid(self@, maxn, sv, Seq::<u128>::empty());
                }
                return String::new();
            }
            let d0 = random_below(st);
            let t = self.starts.select(d0);
            ck = t.clone();
            toks.push(t);
            proof {
                dsg = seq![d0];
                lemma_small_mod(d0 as nat, total_weight(self@.starts));
                assert(string_views(toks@) =~= seq![
                    roulette(self@.starts, (d0 as nat) % total_weight(self@.starts)),
                ]);
                assert forall|ext: Seq<u128>|
                    #[trigger] spec_generate(self@, maxn, sv, dsg + ext) == walk_rec(
                        self@,
                        ck@,
                        string_views(toks@),
                        (maxn - 1) as nat,
                        dsg + ext,
                        dsg.len() as int,
                    ) by {
                    assert((dsg + ext).len() >= 1);
                    assert((dsg + ext)[0] == d0);
                }
            }
            started = true;
        }
        let mut count: usize = 1;
        let mut done = false;
        #[verifier::loop_isolation(false)]
        while count < max_words && !done
            invariant
                1 <= count <= max_words,
                count == toks@.len(),
                forall|ext: Seq<u128>|
                    #[trigger] spec_generate(self@, maxn, sv, dsg + ext) == walk_rec(
                        self@,
                        ck@,
                        string_views(toks@),
                        (maxn - count) as nat,
                        dsg + ext,
                        dsg.len() as int,
                    ),
                done ==> (forall|ext: Seq<u128>|
                    #[trigger] spec_generate(self@, maxn, sv, dsg + ext) == string_views(toks@)),
            decreases max_words - count + (if done {
                0int
            } else {
                1int
            }),
        {
            match self.find_context(&ck) {
                None => {
                    done = true;
                }
                Some(idx) => {
                    proof {
                        assert(ctx_views(self.contexts@)[idx as int].1 == self.contexts@[idx
                            as int].1@);
                    }
                    let bt = self.contexts[idx].1.total();
                    if bt == 0 {
                        done = true;
                    } else {
                        let d = random_below(bt);
                        let t = self.contexts[idx].1.select(d);
                        let ghost dsg0 = dsg;
                        let ghost ck0 = ck@;
                        let ghost views0 = string_views(toks@);
                        proof {
                            dsg = dsg.push(d);
                            lemma_small_mod(d as nat, total_weight(ctx_cands(self@.contexts, ck0)));
                            assert(string_views(toks@.push(t)) =~= string_views(toks@).push(t@));
                        }
                        ck = t.clone();
                        toks.push(t);
                        count = count + 1;
                        proof {
                            assert forall|ext: Seq<u128>|
                                #[trigger] spec_generate(self@, maxn, sv, dsg + ext) == walk_rec(
                                    self@,
                                    ck@,
                                    string_views(toks@),
                                    (maxn - count) as nat,
                                    dsg + ext,
                                    dsg.len() as int,
                                ) by {
                                assert(dsg + ext =~= dsg0 + (seq![d] + ext));
                                assert(spec_generate(self@, maxn, sv, dsg0 + (seq![d] + ext))
                                    == walk_rec(
                                    self@,
                                    ck0,
                                    views0,
                                    (maxn - count + 1) as nat,
                                    dsg0 + (seq![d] + ext),
                                    dsg0.len() as int,
                                ));
                                assert((dsg0 + (seq![d] + ext))[dsg0.len() as int] == d);
                            }
                        }
                    }
                }
            }
        }
        proof {
            assert(dsg + Seq::<u128>::empty() =~= dsg);
            assert(spec_generate(self@, maxn, sv, dsg) == string_views(toks@));
            lemma_generation_valid(self@, maxn, sv, dsg);
        }
        join_with_spaces(&toks)
    }
}

} // verus!
