//! Per-message word-usage counting: how often each case-folded token occurs
//! in one message, with a caller-supplied list of words to leave out.

use vstd::prelude::*;

use crate::text::folded_tokens;
use crate::text::message_tokens;
use crate::text::string_views;
use crate::weights::WeightSeq;
use crate::weights::WeightedBag;
use crate::weights::bump;
use crate::weights::total_weight;

verus! {

/// The counts over the tokens of one message from position `i` on: each
/// token not in `skip` raises its own count by one.
pub open spec fn counted(acc: WeightSeq, toks: Seq<Seq<char>>, skip: Seq<Seq<char>>, i: int) -> WeightSeq
    decreases toks.len() - i,
{
    if i < 0 || i >= toks.len() {
        acc
    } else if skip.contains(toks[i]) {
        counted(acc, toks, skip, i + 1)
    } else {
        counted(bump(acc, toks[i]), toks, skip, i + 1)
    }
}

fn is_excluded(excluded: &Vec<String>, t: &String) -> (r: bool)
    ensures
        r == string_views(excluded@).contains(t@),
{
    let n = excluded.len();
    let mut i: usize = 0;
    #[verifier::loop_isolation(false)]
    while i < n
        invariant
            0 <= i <= n,
            n == excluded@.len(),
            forall|j: int| 0 <= j < i ==> (#[trigger] string_views(excluded@)[j]) != t@,
        decreases n - i,
    {
        if excluded[i] == *t {
            proof {
                assert(string_views(excluded@)[i as int] == t@);
            }
            return true;
        }
        i = i + 1;
    }
    false
}

/// How often each case-folded token occurs in `content`, split on
/// whitespace, leaving out any token that equals one of `excluded`. The
/// counts come back in first-occurrence order.
pub fn word_usage_counts(content: &str, excluded: &Vec<String>) -> (r: Vec<(String, u128)>)
    ensures
        r@.map_values(|p: (String, u128)| (p.0@, p.1 as nat)) == counted(
            Seq::empty(),
            folded_tokens(content@),
            string_views(excluded@),
            0,
        ),
{
    let toks = message_tokens(content);
    let ghost tv = folded_tokens(content@);
    let ghost skip = string_views(excluded@);
    let mut bag = WeightedBag::empty();
    let n = toks.len();
    let mut i: usize = 0;
    #[verifier::loop_isolation(false)]
    while i < n
        invariant
            0 <= i <= n,
            n == toks@.len(),
            bag.inv(),
            total_weight(bag@) <= i,
            counted(Seq::empty(), tv, skip, 0) == counted(bag@, tv, skip, i as int),
        decreases n - i,
    {
        proof {
            assert(toks@[i as int]@ == tv[i as int]);
        }
        if !is_excluded(excluded, &toks[i]) {
            bag.record(&toks[i]);
        }
        i = i + 1;
    }
    proof {
        assert(counted(bag@, tv, skip, n as int) == bag@);
    }
    bag.into_entries()
}

} // verus!
