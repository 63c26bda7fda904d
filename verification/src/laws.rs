//! Laws of the engine: properties that relate training and generation,
//! stated over the abstract model and proved once for all inputs.

use vstd::prelude::*;

use crate::chain::ChainModel;
use crate::chain::ContextSeq;
use crate::chain::can_start;
use crate::chain::ctx_bump;
use crate::chain::ctx_cands;
use crate::chain::gen_key;
use crate::chain::lemma_generation_valid;
use crate::chain::observe_pairs;
use crate::chain::seed_matches;
use crate::chain::spec_generate;
use crate::chain::trained;
use crate::chain::trained_one;
use crate::text::folded;
use crate::text::folded_tokens;
use crate::weights::WeightSeq;
use crate::weights::bump;
use crate::weights::has_key;
use crate::weights::lemma_bump_total;
use crate::weights::lemma_bump_weight;
use crate::weights::lemma_total_positive;
use crate::weights::total_weight;
use crate::weights::weight_of;

verus! {

proof fn lemma_ctx_bump_weight(
    cs: ContextSeq,
    x: Seq<char>,
    y: Seq<char>,
    a: Seq<char>,
    b: Seq<char>,
)
    ensures
        weight_of(ctx_cands(ctx_bump(cs, x, y), a), b) as int == weight_of(ctx_cands(cs, a), b)
            + (if x == a && y == b {
            1int
        } else {
            0int
        }),
    decreases cs.len(),
{
    let cx = ctx_bump(cs, x, y);
    if cs.len() == 0 {
        assert(ctx_cands(cs, a) =~= Seq::<(Seq<char>, nat)>::empty());
        if a == x {
            assert(ctx_cands(cx, a) == seq![(y, 1 as nat)]);
            assert(seq![(y, 1 as nat)].drop_first() =~= Seq::<(Seq<char>, nat)>::empty());
            assert(weight_of(seq![(y, 1 as nat)], b) == if y == b {
                1 as nat
            } else {
                weight_of(seq![(y, 1 as nat)].drop_first(), b)
            });
        } else {
            assert(cx.drop_first() =~= Seq::<(Seq<char>, WeightSeq)>::empty());
            assert(ctx_cands(cx, a) == ctx_cands(cx.drop_first(), a));
        }
    } else if cs[0].0 == x {
        assert(cx.drop_first() =~= cs.drop_first());
        assert(cx[0] == (cs[0].0, bump(cs[0].1, y)));
        if a == x {
            assert(ctx_cands(cx, a) == bump(cs[0].1, y));
            assert(ctx_cands(cs, a) == cs[0].1);
            lemma_bump_weight(cs[0].1, y, b);
        } else {
            assert(ctx_cands(cx, a) == ctx_cands(cx.drop_first(), a));
            assert(ctx_cands(cs, a) == ctx_cands(cs.drop_first(), a));
        }
    } else {
        assert(cx.drop_first() =~= ctx_bump(cs.drop_first(), x, y));
        assert(cx[0] == cs[0]);
        if a == cs[0].0 {
            assert(ctx_cands(cx, a) == cs[0].1);
            assert(ctx_cands(cs, a) == cs[0].1);
        } else {
            lemma_ctx_bump_weight(cs.drop_first(), x, y, a, b);
            assert(ctx_cands(cx, a) == ctx_cands(cx.drop_first(), a));
            assert(ctx_cands(cs, a) == ctx_cands(cs.drop_first(), a));
        }
    }
}

proof fn lemma_observe_pairs_origin(
    cs: ContextSeq,
    toks: Seq<Seq<char>>,
    i: int,
    a: Seq<char>,
    b: Seq<char>,
)
    requires
        weight_of(ctx_cands(observe_pairs(cs, toks, i), a), b) > 0,
    ensures
        weight_of(ctx_cands(cs, a), b) > 0 || exists|j: int|
            i <= j && j + 1 < toks.len() && (#[trigger] toks[j]) == a && toks[j + 1] == b,
    decreases toks.len() - i,
{
    if i < 0 || i + 1 >= toks.len() {
    } else {
        let cs1 = ctx_bump(cs, toks[i], toks[i + 1]);
        lemma_observe_pairs_origin(cs1, toks, i + 1, a, b);
        if weight_of(ctx_cands(cs1, a), b) > 0 {
            lemma_ctx_bump_weight(cs, toks[i], toks[i + 1], a, b);
            if toks[i] == a && toks[i + 1] == b {
                assert(i <= i && i + 1 < toks.len() && toks[i] == a && toks[i + 1] == b);
            }
        }
    }
}

proof fn lemma_trained_origin(
    m: ChainModel,
    msgs: Seq<Seq<char>>,
    i: int,
    a: Seq<char>,
    b: Seq<char>,
)
    requires
        weight_of(ctx_cands(trained(m, msgs, i).contexts, a), b) > 0,
    ensures
        weight_of(ctx_cands(m.contexts, a), b) > 0 || exists|mi: int, j: int|
            {
                &&& i <= mi < msgs.len()
                &&& 0 <= j && j + 1 < folded_tokens(msgs[mi]).len()
                &&& (#[trigger] folded_tokens(msgs[mi])[j]) == a
                &&& folded_tokens(msgs[mi])[j + 1] == b
            },
    decreases msgs.len() - i,
{
    if i < 0 || i >= msgs.len() {
    } else {
        let tv = folded_tokens(msgs[i]);
        let m1 = trained_one(m, tv);
        lemma_trained_origin(m1, msgs, i + 1, a, b);
        if weight_of(ctx_cands(m1.contexts, a), b) > 0 {
            if tv.len() == 0 {
            } else {
                assert(m1.contexts == observe_pairs(m.contexts, tv, 0));
                if weight_of(ctx_cands(m.contexts, a), b) == 0 {
                    lemma_observe_pairs_origin(m.contexts, tv, 0, a, b);
                    let j = choose|j: int|
                        0 <= j && j + 1 < tv.len() && (#[trigger] tv[j]) == a && tv[j + 1] == b;
                    assert(i <= i < msgs.len() && 0 <= j && j + 1 < folded_tokens(msgs[i]).len()
                        && folded_tokens(msgs[i])[j] == a && folded_tokens(msgs[i])[j + 1] == b);
                }
            }
        }
    }
}

/// No cross-message leakage: every transition that training records — every
/// pair `a` then `b` with a positive count — is an adjacent pair of
/// case-folded tokens inside a single training message. No transition ever
/// crosses from the end of one message to the start of the next.
pub proof fn lemma_no_cross_message_leakage(msgs: Seq<Seq<char>>, a: Seq<char>, b: Seq<char>)
    ensures
        weight_of(ctx_cands(trained(ChainModel::empty(), msgs, 0).contexts, a), b) > 0
            ==> exists|mi: int, j: int|
            {
                &&& 0 <= mi < msgs.len()
                &&& 0 <= j && j + 1 < folded_tokens(msgs[mi]).len()
                &&& (#[trigger] folded_tokens(msgs[mi])[j]) == a
                &&& folded_tokens(msgs[mi])[j + 1] == b
            },
{
    if weight_of(ctx_cands(trained(ChainModel::empty(), msgs, 0).contexts, a), b) > 0 {
        lemma_trained_origin(ChainModel::empty(), msgs, 0, a, b);
        assert(ctx_cands(ChainModel::empty().contexts, a) =~= Seq::<(Seq<char>, nat)>::empty());
    }
}

/// How often a pair whose first token is `a` occurs in one message's tokens,
/// from position `i` on.
pub open spec fn pairs_led_by(toks: Seq<Seq<char>>, a: Seq<char>, i: int) -> nat
    decreases toks.len() - i,
{
    if i < 0 || i + 1 >= toks.len() {
        0
    } else {
        (if toks[i] == a {
            1 as nat
        } else {
            0 as nat
        }) + pairs_led_by(toks, a, i + 1)
    }
}

/// How often the corpus observes context `a` followed by some token, over the
/// case-folded tokens of the messages from position `i` on.
pub open spec fn context_observations(msgs: Seq<Seq<char>>, a: Seq<char>, i: int) -> nat
    decreases msgs.len() - i,
{
    if i < 0 || i >= msgs.len() {
        0
    } else {
        pairs_led_by(folded_tokens(msgs[i]), a, 0) + context_observations(msgs, a, i + 1)
    }
}

/// How many of the messages from position `i` on begin with token `t`, after
/// splitting and case-folding.
pub open spec fn start_observations(msgs: Seq<Seq<char>>, t: Seq<char>, i: int) -> nat
    decreases msgs.len() - i,
{
    if i < 0 || i >= msgs.len() {
        0
    } else {
        (if folded_tokens(msgs[i]).len() > 0 && folded_tokens(msgs[i])[0] == t {
            1 as nat
        } else {
            0 as nat
        }) + start_observations(msgs, t, i + 1)
    }
}

proof fn lemma_ctx_bump_context_total(cs: ContextSeq, x: Seq<char>, y: Seq<char>, a: Seq<char>)
    ensures
        total_weight(ctx_cands(ctx_bump(cs, x, y), a)) as int == total_weight(ctx_cands(cs, a))
            + (if x == a {
            1int
        } else {
            0int
        }),
    decreases cs.len(),
{
    let cx = ctx_bump(cs, x, y);
    if cs.len() == 0 {
        assert(ctx_cands(cs, a) =~= Seq::<(Seq<char>, nat)>::empty());
        if a == x {
            assert(ctx_cands(cx, a) == seq![(y, 1 as nat)]);
            assert(seq![(y, 1 as nat)].drop_first() =~= Seq::<(Seq<char>, nat)>::empty());
            assert(total_weight(Seq::<(Seq<char>, nat)>::empty()) == 0);
            assert(total_weight(seq![(y, 1 as nat)]) == seq![(y, 1 as nat)][0].1 + total_weight(
                seq![(y, 1 as nat)].drop_first(),
            ));
        } else {
            assert(cx.drop_first() =~= Seq::<(Seq<char>, WeightSeq)>::empty());
            assert(ctx_cands(cx, a) == ctx_cands(cx.drop_first(), a));
        }
    } else if cs[0].0 == x {
        assert(cx.drop_first() =~= cs.drop_first());
        assert(cx[0] == (cs[0].0, bump(cs[0].1, y)));
        if a == x {
            assert(ctx_cands(cx, a) == bump(cs[0].1, y));
            assert(ctx_cands(cs, a) == cs[0].1);
            lemma_bump_total(cs[0].1, y);
        } else {
            assert(ctx_cands(cx, a) == ctx_cands(cx.drop_first(), a));
            assert(ctx_cands(cs, a) == ctx_cands(cs.drop_first(), a));
        }
    } else {
        assert(cx.drop_first() =~= ctx_bump(cs.drop_first(), x, y));
        assert(cx[0] == cs[0]);
        if a == cs[0].0 {
            assert(ctx_cands(cx, a) == cs[0].1);
            assert(ctx_cands(cs, a) == cs[0].1);
        } else {
            lemma_ctx_bump_context_total(cs.drop_first(), x, y, a);
            assert(ctx_cands(cx, a) == ctx_cands(cx.drop_first(), a));
            assert(ctx_cands(cs, a) == ctx_cands(cs.drop_first(), a));
        }
    }
}

proof fn lemma_observe_pairs_context_total(
    cs: ContextSeq,
    toks: Seq<Seq<char>>,
    i: int,
    a: Seq<char>,
)
    ensures
        total_weight(ctx_cands(observe_pairs(cs, toks, i), a)) == total_weight(ctx_cands(cs, a))
            + pairs_led_by(toks, a, i),
    decreases toks.len() - i,
{
    if i < 0 || i + 1 >= toks.len() {
    } else {
        let cs1 = ctx_bump(cs, toks[i], toks[i + 1]);
        lemma_ctx_bump_context_total(cs, toks[i], toks[i + 1], a);
        lemma_observe_pairs_context_total(cs1, toks, i + 1, a);
    }
}

proof fn lemma_trained_context_total(m: ChainModel, msgs: Seq<Seq<char>>, i: int, a: Seq<char>)
    ensures
        total_weight(ctx_cands(trained(m, msgs, i).contexts, a)) == total_weight(
            ctx_cands(m.contexts, a),
        ) + context_observations(msgs, a, i),
    decreases msgs.len() - i,
{
    if i < 0 || i >= msgs.len() {
    } else {
        let tv = folded_tokens(msgs[i]);
        let m1 = trained_one(m, tv);
        lemma_trained_context_total(m1, msgs, i + 1, a);
        if tv.len() == 0 {
            assert(pairs_led_by(tv, a, 0) == 0);
        } else {
            lemma_observe_pairs_context_total(m.contexts, tv, 0, a);
        }
    }
}

proof fn lemma_trained_start_count(m: ChainModel, msgs: Seq<Seq<char>>, i: int, t: Seq<char>)
    ensures
        weight_of(trained(m, msgs, i).starts, t) == weight_of(m.starts, t) + start_observations(
            msgs,
            t,
            i,
        ),
    decreases msgs.len() - i,
{
    if i < 0 || i >= msgs.len() {
    } else {
        let tv = folded_tokens(msgs[i]);
        let m1 = trained_one(m, tv);
        lemma_trained_start_count(m1, msgs, i + 1, t);
        if tv.len() > 0 {
            lemma_bump_weight(m.starts, tv[0], t);
        }
    }
}

/// The model invariant, counted exactly: in a freshly trained model, the
/// total weight under a context equals the number of times the corpus
/// observed that context followed by some token, and a start token's count
/// equals the number of messages it began.
pub proof fn lemma_trained_counts(msgs: Seq<Seq<char>>, a: Seq<char>)
    ensures
        total_weight(ctx_cands(trained(ChainModel::empty(), msgs, 0).contexts, a))
            == context_observations(msgs, a, 0),
        weight_of(trained(ChainModel::empty(), msgs, 0).starts, a) == start_observations(
            msgs,
            a,
            0,
        ),
{
    lemma_trained_context_total(ChainModel::empty(), msgs, 0, a);
    assert(ctx_cands(ChainModel::empty().contexts, a) =~= Seq::<(Seq<char>, nat)>::empty());
    lemma_trained_start_count(ChainModel::empty(), msgs, 0, a);
}

/// Length bound: a generated sentence never exceeds the requested bound; it
/// has at least one token whenever the start set is non-empty and at least
/// one token was asked for; and it is empty exactly when nothing could start
/// it — no bound, no matching seed and an empty start set.
pub proof fn lemma_generation_length(
    m: ChainModel,
    max: nat,
    sd: Option<Seq<char>>,
    draws: Seq<u128>,
)
    requires
        m.wf(),
    ensures
        spec_generate(m, max, sd, draws).len() <= max,
        max >= 1 && m.starts.len() > 0 ==> spec_generate(m, max, sd, draws).len() >= 1,
        spec_generate(m, max, sd, draws).len() == 0 <==> (max == 0 || !can_start(m, sd)),
{
    lemma_generation_valid(m, max, sd, draws);
    if m.starts.len() > 0 {
        lemma_total_positive(m.starts);
    }
}

/// Seed honoring: when the seed names a known context or start token, the
/// sentence begins with the seed, written as the caller gave it, and any
/// second token is one that training recorded after the folded seed.
pub proof fn lemma_seed_honored(m: ChainModel, max: nat, sd: Seq<char>, draws: Seq<u128>)
    requires
        max >= 1,
    ensures
        seed_matches(m, sd) ==> {
            &&& spec_generate(m, max, Some(sd), draws).len() >= 1
            &&& spec_generate(m, max, Some(sd), draws)[0] == sd
            &&& (spec_generate(m, max, Some(sd), draws).len() >= 2 ==> has_key(
                ctx_cands(m.contexts, folded(sd)),
                spec_generate(m, max, Some(sd), draws)[1],
            ))
        },
{
    lemma_generation_valid(m, max, Some(sd), draws);
    if seed_matches(m, sd) {
        let toks = spec_generate(m, max, Some(sd), draws);
        if toks.len() >= 2 {
            assert(gen_key(m, Some(sd), toks, 0) == folded(sd));
            assert(has_key(ctx_cands(m.contexts, gen_key(m, Some(sd), toks, 0)), toks[1]));
        }
    }
}

/// Start-set fallback: a seed unknown to the model is not an error — the
/// sentence still comes back, and it begins with a token from the start set.
pub proof fn lemma_unknown_seed_falls_back(m: ChainModel, max: nat, sd: Seq<char>, draws: Seq<u128>)
    requires
        max >= 1,
    ensures
        !seed_matches(m, sd) && total_weight(m.starts) > 0 ==> {
            &&& spec_generate(m, max, Some(sd), draws).len() >= 1
            &&& has_key(m.starts, spec_generate(m, max, Some(sd), draws)[0])
        },
{
    lemma_generation_valid(m, max, Some(sd), draws);
}

} // verus!
