//! Tokenization of raw message text: splitting on whitespace, case-folding
//! each token, and joining generated tokens back into a sentence.

use vstd::prelude::*;
use vstd::string::StrSliceExecFns;
use vstd::string::StringExecFns;

verus! {

/// The characters that delimit tokens.
pub open spec fn is_space_char(c: char) -> bool {
    c == ' ' || c == '\t' || c == '\n' || c == '\r' || c == '\u{000B}' || c == '\u{000C}'
}

fn is_space(c: char) -> (r: bool)
    ensures
        r == is_space_char(c),
{
    c == ' ' || c == '\t' || c == '\n' || c == '\r' || c == '\u{000B}' || c == '\u{000C}'
}

/// One step of the splitter: `i` is the next position in `s`, `cur` the token
/// being accumulated, `acc` the tokens already completed.
pub open spec fn split_rec(s: Seq<char>, i: int, cur: Seq<char>, acc: Seq<Seq<char>>) -> Seq<
    Seq<char>,
>
    decreases s.len() - i,
{
    if i < 0 || i >= s.len() {
        if cur.len() > 0 {
            acc.push(cur)
        } else {
            acc
        }
    } else if is_space_char(s[i]) {
        if cur.len() > 0 {
            split_rec(s, i + 1, Seq::empty(), acc.push(cur))
        } else {
            split_rec(s, i + 1, Seq::empty(), acc)
        }
    } else {
        split_rec(s, i + 1, cur.push(s[i]), acc)
    }
}

/// The whitespace-delimited tokens of a message, in order.
pub open spec fn tokens_of(s: Seq<char>) -> Seq<Seq<char>> {
    split_rec(s, 0, Seq::empty(), Seq::empty())
}

/// Name for what `str::to_lowercase` returns: the case-folded form of a
/// sequence of characters. It depends on the characters alone.
pub uninterp spec fn folded(s: Seq<char>) -> Seq<char>;

/// Relies on str::to_lowercase: returns the lowercase equivalent of the
/// string, a function of its characters alone.
#[verifier::external_body]
pub(crate) fn fold_case(s: &str) -> (r: String)
    ensures
        r@ == folded(s@),
{
    s.to_lowercase()
}

/// The case-folded tokens of a message: what the trainer consumes.
pub open spec fn folded_tokens(m: Seq<char>) -> Seq<Seq<char>> {
    tokens_of(m).map_values(|t: Seq<char>| folded(t))
}

/// The views of a vector of strings.
pub open spec fn string_views(toks: Seq<String>) -> Seq<Seq<char>> {
    toks.map_values(|t: String| t@)
}

/// Split a message on whitespace.
pub fn tokenize(s: &str) -> (toks: Vec<String>)
    ensures
        string_views(toks@) =~= tokens_of(s@),
{
    let n = s.unicode_len();
    let mut toks: Vec<String> = Vec::new();
    let mut i: usize = 0;
    let mut start: usize = 0;
    let mut in_tok = false;
    proof {
        assert(string_views(toks@) =~= Seq::<Seq<char>>::empty());
    }
    #[verifier::loop_isolation(false)]
    while i < n
        invariant
            0 <= i <= n,
            in_tok ==> 0 <= start < i,
            !in_tok ==> tokens_of(s@) == split_rec(s@, i as int, Seq::empty(), string_views(toks@)),
            in_tok ==> tokens_of(s@) == split_rec(
                s@,
                i as int,
                s@.subrange(start as int, i as int),
                string_views(toks@),
            ),
        decreases n - i,
    {
        let c = s.get_char(i);
        if is_space(c) {
            if in_tok {
                let t = s.substring_char(start, i).to_owned();
                proof {
                    assert(string_views(toks@.push(t)) =~= string_views(toks@).push(
                        s@.subrange(start as int, i as int),
                    ));
                }
                toks.push(t);
                in_tok = false;
            }
        } else {
            if !in_tok {
                start = i;
                in_tok = true;
                proof {
                    assert(s@.subrange(i as int, i + 1) =~= Seq::<char>::empty().push(s@[i as int]));
                }
            } else {
                proof {
                    assert(s@.subrange(start as int, i + 1) =~= s@.subrange(
                        start as int,
                        i as int,
                    ).push(s@[i as int]));
                }
            }
        }
        i = i + 1;
    }
    if in_tok {
        let t = s.substring_char(start, n).to_owned();
        proof {
            assert(string_views(toks@.push(t)) =~= string_views(toks@).push(
                s@.subrange(start as int, n as int),
            ));
        }
        toks.push(t);
    }
    toks
}

/// Split a message on whitespace and case-fold each token.
pub fn message_tokens(m: &str) -> (toks: Vec<String>)
    ensures
        string_views(toks@) =~= folded_tokens(m@),
{
    let raw = tokenize(m);
    let mut toks: Vec<String> = Vec::new();
    let mut i: usize = 0;
    #[verifier::loop_isolation(false)]
    while i < raw.len()
        invariant
            0 <= i <= raw.len(),
            string_views(toks@) =~= folded_tokens(m@).take(i as int),
        decreases raw.len() - i,
    {
        let t = fold_case(raw[i].as_str());
        proof {
            assert(string_views(toks@.push(t)) =~= string_views(toks@).push(folded(raw@[i as int]@)));
            assert(folded_tokens(m@).take(i + 1) =~= folded_tokens(m@).take(i as int).push(
                folded_tokens(m@)[i as int],
            ));
        }
        toks.push(t);
        i = i + 1;
    }
    proof {
        assert(folded_tokens(m@).take(raw.len() as int) =~= folded_tokens(m@));
    }
    toks
}

/// The tokens joined by single spaces, in order.
pub open spec fn joined(toks: Seq<Seq<char>>) -> Seq<char>
    decreases toks.len(),
{
    if toks.len() == 0 {
        Seq::empty()
    } else if toks.len() == 1 {
        toks[0]
    } else {
        joined(toks.drop_last()) + seq![' '] + toks.last()
    }
}

/// Join tokens with single spaces.
pub fn join_with_spaces(toks: &Vec<String>) -> (r: String)
    ensures
        r@ == joined(string_views(toks@)),
{
    let mut out = String::new();
    let mut i: usize = 0;
    #[verifier::loop_isolation(false)]
    while i < toks.len()
        invariant
            0 <= i <= toks.len(),
            out@ == joined(string_views(toks@).take(i as int)),
        decreases toks.len() - i,
    {
        if i > 0 {
            out.append(" ");
        }
        out.append(toks[i].as_str());
        proof {
            let vs = string_views(toks@);
            assert(vs.take(i + 1).drop_last() =~= vs.take(i as int));
            assert(vs.take(i + 1).last() == vs[i as int]);
            if i == 0 {
                assert(out@ =~= vs[0]);
                assert(vs.take(1)[0] == vs[0]);
            } else {
                reveal_strlit(" ");
                assert(" "@ =~= seq![' ']);
            }
        }
        i = i + 1;
    }
    proof {
        assert(string_views(toks@).take(toks@.len() as int) =~= string_views(toks@));
    }
    out
}

} // verus!
