//! Ranking scores: Levenshtein distance from a query to the best-matching
//! whitespace-separated token of a word.

use vstd::prelude::*;
use vstd::string::StrSliceExecFns;

verus! {

pub open spec fn min2(x: nat, y: nat) -> nat {
    if x <= y {
        x
    } else {
        y
    }
}

/// Classic Levenshtein distance between two character sequences: the least
/// number of single-character insertions, deletions and substitutions that
/// turns one into the other.
pub open spec fn lev(a: Seq<char>, b: Seq<char>) -> nat
    decreases a.len(), b.len(),
{
    if a.len() == 0 {
        b.len()
    } else if b.len() == 0 {
        a.len()
    } else if a[0] == b[0] {
        lev(a.subrange(1, a.len() as int), b.subrange(1, b.len() as int))
    } else {
        1 + min2(
            min2(
                lev(a.subrange(1, a.len() as int), b),
                lev(a, b.subrange(1, b.len() as int)),
            ),
            lev(a.subrange(1, a.len() as int), b.subrange(1, b.len() as int)),
        )
    }
}

/// Relies on levenshtein::levenshtein: the classic edit distance between the
/// two strings, computed over their characters.
#[verifier::external_body]
fn levenshtein_exec(a: &str, b: &str) -> (r: usize)
    ensures
        r as nat == lev(a@, b@),
{
    levenshtein::levenshtein(a, b)
}

/// The Unicode white-space characters, as the standard library's
/// `char::is_whitespace` (and so `str::split_whitespace`) classifies them.
pub open spec fn is_ws_char(c: char) -> bool {
    ||| c == '\u{0009}'
    ||| c == '\u{000A}'
    ||| c == '\u{000B}'
    ||| c == '\u{000C}'
    ||| c == '\u{000D}'
    ||| c == ' '
    ||| c == '\u{0085}'
    ||| c == '\u{00A0}'
    ||| c == '\u{1680}'
    ||| c == '\u{2000}'
    ||| c == '\u{2001}'
    ||| c == '\u{2002}'
    ||| c == '\u{2003}'
    ||| c == '\u{2004}'
    ||| c == '\u{2005}'
    ||| c == '\u{2006}'
    ||| c == '\u{2007}'
    ||| c == '\u{2008}'
    ||| c == '\u{2009}'
    ||| c == '\u{200A}'
    ||| c == '\u{2028}'
    ||| c == '\u{2029}'
    ||| c == '\u{202F}'
    ||| c == '\u{205F}'
    ||| c == '\u{3000}'
}

/// White-space test matching `is_ws_char`.
fn is_ws(c: char) -> (r: bool)
    ensures
        r == is_ws_char(c),
{
    c == '\u{0009}' || c == '\u{000A}' || c == '\u{000B}' || c == '\u{000C}' || c == '\u{000D}'
        || c == ' ' || c == '\u{0085}' || c == '\u{00A0}' || c == '\u{1680}' || c == '\u{2000}'
        || c == '\u{2001}' || c == '\u{2002}' || c == '\u{2003}' || c == '\u{2004}' || c
        == '\u{2005}' || c == '\u{2006}' || c == '\u{2007}' || c == '\u{2008}' || c == '\u{2009}'
        || c == '\u{200A}' || c == '\u{2028}' || c == '\u{2029}' || c == '\u{202F}' || c
        == '\u{205F}' || c == '\u{3000}'
}

/// Length of the leading run of non-white-space characters of `s`.
pub open spec fn token_len(s: Seq<char>) -> nat
    decreases s.len(),
{
    if s.len() == 0 || is_ws_char(s[0]) {
        0
    } else {
        1 + token_len(s.subrange(1, s.len() as int))
    }
}

pub proof fn lemma_token_len_le(s: Seq<char>)
    ensures
        token_len(s) <= s.len(),
    decreases s.len(),
{
    if s.len() != 0 && !is_ws_char(s[0]) {
        lemma_token_len_le(s.subrange(1, s.len() as int));
    }
}

/// The maximal white-space-free runs of `s`, in order: what
/// `str::split_whitespace` yields.
pub open spec fn tokens(s: Seq<char>) -> Seq<Seq<char>>
    decreases s.len(),
    via tokens_decreases
{
    if s.len() == 0 {
        Seq::<Seq<char>>::empty()
    } else if is_ws_char(s[0]) {
        tokens(s.subrange(1, s.len() as int))
    } else {
        seq![s.subrange(0, token_len(s) as int)] + tokens(
            s.subrange(token_len(s) as int, s.len() as int),
        )
    }
}

#[via_fn]
proof fn tokens_decreases(s: Seq<char>) {
    if s.len() != 0 && !is_ws_char(s[0]) {
        lemma_token_len_le(s);
    }
}

/// If the first `k` characters of `s` are no white space and character `k`
/// (if any) is, the leading token has length exactly `k`.
pub proof fn lemma_token_len_value(s: Seq<char>, k: int)
    requires
        0 <= k <= s.len(),
        forall|m: int| 0 <= m < k ==> !is_ws_char(s[m]),
        k == s.len() || is_ws_char(s[k]),
    ensures
        token_len(s) == k,
    decreases s.len(),
{
    if k == 0 {
    } else {
        let rest = s.subrange(1, s.len() as int);
        assert forall|m: int| 0 <= m < k - 1 implies !is_ws_char(rest[m]) by {
            assert(rest[m] == s[m + 1]);
        }
        lemma_token_len_value(rest, k - 1);
    }
}

/// The least edit distance from `q` to any of `toks`; with no token at all,
/// the distance to the empty string, which is the length of `q`.
pub open spec fn min_dist_over(q: Seq<char>, toks: Seq<Seq<char>>) -> nat
    decreases toks.len(),
{
    if toks.len() == 0 {
        q.len()
    } else if toks.len() == 1 {
        lev(q, toks[0])
    } else {
        min2(lev(q, toks[0]), min_dist_over(q, toks.subrange(1, toks.len() as int)))
    }
}

pub proof fn lemma_min_dist_cons(q: Seq<char>, t: Seq<char>, toks: Seq<Seq<char>>)
    ensures
        min_dist_over(q, seq![t] + toks) == if toks.len() == 0 {
            lev(q, t)
        } else {
            min2(lev(q, t), min_dist_over(q, toks))
        },
{
    let whole = seq![t] + toks;
    assert(whole[0] == t);
    assert(whole.subrange(1, whole.len() as int) =~= toks);
}

/// The ranking score of word `w` against query `q`: the least Levenshtein
/// distance between `q` and any white-space-separated token of `w`.  A word
/// with no token at all scores as the distance to the empty string.
pub open spec fn score(q: Seq<char>, w: Seq<char>) -> nat {
    min_dist_over(q, tokens(w))
}

/// The least distance from `search` to any token of `words` at or after
/// offset `i`, or nothing if no token remains.
fn min_dist_from(search: &str, words: &str, i: usize) -> (r: Option<usize>)
    requires
        i <= words@.len(),
    ensures
        ({
            let toks = tokens(words@.subrange(i as int, words@.len() as int));
            match r {
                None => toks.len() == 0,
                Some(d) => toks.len() > 0 && d as nat == min_dist_over(search@, toks),
            }
        }),
    decreases words@.len() - i,
{
    let n = words.unicode_len();
    let ghost srest = words@.subrange(i as int, words@.len() as int);
    if i == n {
        proof {
            assert(srest =~= Seq::<char>::empty());
        }
        return None;
    }
    let c = words.get_char(i);
    proof {
        assert(srest[0] == c);
    }
    if is_ws(c) {
        proof {
            assert(srest.subrange(1, srest.len() as int) =~= words@.subrange(
                i as int + 1,
                words@.len() as int,
            ));
        }
        return min_dist_from(search, words, i + 1);
    }
    let mut e: usize = i + 1;
    while e < n && !is_ws(words.get_char(e))
        invariant
            i < e <= n,
            n == words@.len(),
            forall|m: int| i <= m < e ==> !is_ws_char(words@[m]),
        decreases n - e,
    {
        e = e + 1;
    }
    proof {
        assert(e == n || is_ws_char(words@[e as int]));
        assert forall|m: int| 0 <= m < e - i implies !is_ws_char(srest[m]) by {
            assert(srest[m] == words@[i + m]);
        }
        if e < n {
            assert(is_ws_char(srest[e - i]));
        }
        lemma_token_len_value(srest, e - i);
        assert(token_len(srest) == e - i);
    }
    let tok = words.substring_char(i, e);
    let d = levenshtein_exec(search, tok);
    proof {
        assert(tok@ =~= srest.subrange(0, token_len(srest) as int));
        assert(words@.subrange(e as int, words@.len() as int) =~= srest.subrange(
            token_len(srest) as int,
            srest.len() as int,
        ));
        assert(tokens(srest) == seq![tok@] + tokens(
            srest.subrange(token_len(srest) as int, srest.len() as int),
        ));
    }
    let rest = min_dist_from(search, words, e);
    let ghost toks_rest = tokens(words@.subrange(e as int, words@.len() as int));
    proof {
        lemma_min_dist_cons(search@, tok@, toks_rest);
    }
    match rest {
        None => Some(d),
        Some(dr) => {
            let m = if d <= dr {
                d
            } else {
                dr
            };
            Some(m)
        },
    }
}

/// The least Levenshtein distance between `search` and any white-space
/// separated token of `words`.  Where `words` holds no token at all, the
/// score is the distance to the empty string: the length of `search`.
pub fn multi_levenshtein(search: &str, words: &str) -> (r: usize)
    ensures
        r as nat == score(search@, words@),
{
    proof {
        assert(words@.subrange(0, words@.len() as int) =~= words@);
    }
    match min_dist_from(search, words, 0) {
        None => search.unicode_len(),
        Some(d) => d,
    }
}

} // verus!
