//! Ranked completion: search the index, keep at most 100 matches, score
//! each against the query, and order them by two successive stable sorts —
//! first by score, then by word length, so that length dominates and the
//! score breaks ties among words of one length.

use vstd::prelude::*;
use vstd::string::StrSliceExecFns;

use crate::definitions::Definitions;
use crate::score::multi_levenshtein;
use crate::score::score;
use crate::substring::is_substring;
use crate::tree::Gst;
use crate::tree::spec_search;
use crate::tree::word_seq_views;

verus! {

/// One completion suggestion: the matched word itself (a stable key) and
/// the display string joined from its senses.
pub struct Suggestion {
    pub key: String,
    pub word_display: String,
}

/// A suggestion together with its ranking keys.
pub struct Scored {
    pub sug: Suggestion,
    pub dist: usize,
    pub len: usize,
}

/// The ghost image of a scored suggestion.
pub ghost struct ScoredV {
    pub key: Seq<char>,
    pub disp: Seq<char>,
    pub dist: nat,
    pub len: nat,
}

pub open spec fn scored_view(e: Scored) -> ScoredV {
    ScoredV { key: e.sug.key@, disp: e.sug.word_display@, dist: e.dist as nat, len: e.len as nat }
}

pub open spec fn scored_views(s: Seq<Scored>) -> Seq<ScoredV> {
    s.map_values(|e: Scored| scored_view(e))
}

pub open spec fn sug_views(s: Seq<Suggestion>) -> Seq<(Seq<char>, Seq<char>)> {
    s.map_values(|e: Suggestion| (e.key@, e.word_display@))
}

/// The sort key of one pass: word length in the second pass, score in the
/// first.
pub open spec fn key_of(by_len: bool, e: ScoredV) -> nat {
    if by_len {
        e.len
    } else {
        e.dist
    }
}

/// Stable insertion into a sorted sequence: the new element goes before
/// every element whose key is not smaller.
pub open spec fn insert_sorted_spec(by_len: bool, s: Seq<ScoredV>, x: ScoredV) -> Seq<ScoredV>
    decreases s.len(),
{
    if s.len() == 0 {
        seq![x]
    } else if key_of(by_len, s.last()) < key_of(by_len, x) {
        s.push(x)
    } else {
        insert_sorted_spec(by_len, s.drop_last(), x).push(s.last())
    }
}

/// Stable insertion sort by one key: elements are inserted back to front,
/// so an earlier element lands before equal keys of later ones.
pub open spec fn sort_spec(by_len: bool, s: Seq<ScoredV>) -> Seq<ScoredV>
    decreases s.len(),
{
    if s.len() == 0 {
        Seq::<ScoredV>::empty()
    } else {
        insert_sorted_spec(by_len, sort_spec(by_len, s.subrange(1, s.len() as int)), s[0])
    }
}

pub open spec fn key_sorted(by_len: bool, s: Seq<ScoredV>) -> bool {
    forall|i: int, j: int|
        #![trigger s[i], s[j]]
        0 <= i < j < s.len() ==> key_of(by_len, s[i]) <= key_of(by_len, s[j])
}

/// Sorted by length first and score second, both ascending.
pub open spec fn lex_sorted(s: Seq<ScoredV>) -> bool {
    forall|i: int, j: int|
        #![trigger s[i], s[j]]
        0 <= i < j < s.len() ==> (s[i].len < s[j].len || (s[i].len == s[j].len && s[i].dist
            <= s[j].dist))
}

proof fn lemma_push_contains_v(s: Seq<ScoredV>, a: ScoredV)
    ensures
        forall|e: ScoredV| #[trigger] s.push(a).contains(e) <==> (s.contains(e) || e == a),
{
    assert forall|e: ScoredV| #[trigger] s.push(a).contains(e) implies (s.contains(e) || e
        == a) by {
        let i = choose|i: int| 0 <= i < s.push(a).len() && s.push(a)[i] == e;
        if i < s.len() {
            assert(s[i] == e);
        }
    }
    assert forall|e: ScoredV| (s.contains(e) || e == a) implies s.push(a).contains(e) by {
        if s.contains(e) {
            let i = choose|i: int| 0 <= i < s.len() && s[i] == e;
            assert(s.push(a)[i] == e);
        } else {
            assert(s.push(a)[s.len() as int] == e);
        }
    }
}

proof fn lemma_drop_last_contains_v(s: Seq<ScoredV>)
    requires
        s.len() > 0,
    ensures
        forall|e: ScoredV| #[trigger] s.contains(e) <==> (s.drop_last().contains(e) || e
            == s.last()),
{
    assert forall|e: ScoredV| #[trigger] s.contains(e) implies (s.drop_last().contains(e) || e
        == s.last()) by {
        let i = choose|i: int| 0 <= i < s.len() && s[i] == e;
        if i < s.len() - 1 {
            assert(s.drop_last()[i] == e);
        }
    }
    assert forall|e: ScoredV| (s.drop_last().contains(e) || e == s.last()) implies s.contains(
        e,
    ) by {
        if s.drop_last().contains(e) {
            let i = choose|i: int| 0 <= i < s.drop_last().len() && s.drop_last()[i] == e;
            assert(s[i] == e);
        } else {
            assert(s[s.len() - 1] == e);
        }
    }
}

/// Inserting adds exactly the new element.
proof fn lemma_insert_props(by_len: bool, s: Seq<ScoredV>, x: ScoredV)
    ensures
        insert_sorted_spec(by_len, s, x).len() == s.len() + 1,
        forall|e: ScoredV|
            #[trigger] insert_sorted_spec(by_len, s, x).contains(e) <==> (s.contains(e) || e == x),
    decreases s.len(),
{
    let r = insert_sorted_spec(by_len, s, x);
    if s.len() == 0 {
        assert forall|e: ScoredV| #[trigger] r.contains(e) implies (s.contains(e) || e == x) by {
            let i = choose|i: int| 0 <= i < r.len() && r[i] == e;
        }
        assert(r[0] == x);
        assert(r.contains(x));
    } else if key_of(by_len, s.last()) < key_of(by_len, x) {
        lemma_push_contains_v(s, x);
    } else {
        lemma_insert_props(by_len, s.drop_last(), x);
        lemma_push_contains_v(insert_sorted_spec(by_len, s.drop_last(), x), s.last());
        lemma_drop_last_contains_v(s);
    }
}

/// Inserting keeps the one-key order.
proof fn lemma_insert_key_sorted(by_len: bool, s: Seq<ScoredV>, x: ScoredV)
    requires
        key_sorted(by_len, s),
    ensures
        key_sorted(by_len, insert_sorted_spec(by_len, s, x)),
    decreases s.len(),
{
    let r = insert_sorted_spec(by_len, s, x);
    if s.len() == 0 {
    } else if key_of(by_len, s.last()) < key_of(by_len, x) {
        assert forall|i: int, j: int|
            #![trigger r[i], r[j]]
            0 <= i < j < r.len() implies key_of(by_len, r[i]) <= key_of(by_len, r[j]) by {
            if j < s.len() {
                assert(r[i] == s[i] && r[j] == s[j]);
            } else {
                assert(r[j] == x);
                if i < s.len() - 1 {
                    assert(key_of(by_len, s[i]) <= key_of(by_len, s[s.len() - 1]));
                }
            }
        }
    } else {
        assert(key_sorted(by_len, s.drop_last())) by {
            assert forall|i: int, j: int|
                #![trigger s.drop_last()[i], s.drop_last()[j]]
                0 <= i < j < s.drop_last().len() implies key_of(by_len, s.drop_last()[i]) <= key_of(
                by_len,
                s.drop_last()[j],
            ) by {
                assert(s.drop_last()[i] == s[i] && s.drop_last()[j] == s[j]);
            }
        }
        lemma_insert_key_sorted(by_len, s.drop_last(), x);
        lemma_insert_props(by_len, s.drop_last(), x);
        let r0 = insert_sorted_spec(by_len, s.drop_last(), x);
        assert forall|i: int, j: int|
            #![trigger r[i], r[j]]
            0 <= i < j < r.len() implies key_of(by_len, r[i]) <= key_of(by_len, r[j]) by {
            if j < r0.len() {
                assert(r[i] == r0[i] && r[j] == r0[j]);
            } else {
                assert(r[j] == s.last());
                assert(r[i] == r0[i]);
                assert(r0.contains(r0[i]));
                if s.drop_last().contains(r0[i]) {
                    let m = choose|m: int|
                        0 <= m < s.drop_last().len() && s.drop_last()[m] == r0[i];
                    assert(s[m] == r0[i]);
                    assert(key_of(by_len, s[m]) <= key_of(by_len, s[s.len() - 1]));
                } else {
                    assert(r0[i] == x);
                }
            }
        }
    }
}

/// Sorting by one key yields that order and keeps exactly the elements.
proof fn lemma_sort_props(by_len: bool, s: Seq<ScoredV>)
    ensures
        sort_spec(by_len, s).len() == s.len(),
        forall|e: ScoredV| #[trigger] sort_spec(by_len, s).contains(e) <==> s.contains(e),
        key_sorted(by_len, sort_spec(by_len, s)),
    decreases s.len(),
{
    let r = sort_spec(by_len, s);
    if s.len() == 0 {
        assert forall|e: ScoredV| #[trigger] r.contains(e) implies s.contains(e) by {
            let i = choose|i: int| 0 <= i < r.len() && r[i] == e;
        }
        assert forall|e: ScoredV| #[trigger] s.contains(e) implies r.contains(e) by {
            let i = choose|i: int| 0 <= i < s.len() && s[i] == e;
        }
    } else {
        let rest = s.subrange(1, s.len() as int);
        lemma_sort_props(by_len, rest);
        lemma_insert_props(by_len, sort_spec(by_len, rest), s[0]);
        lemma_insert_key_sorted(by_len, sort_spec(by_len, rest), s[0]);
        assert forall|e: ScoredV| #[trigger] r.contains(e) implies s.contains(e) by {
            if e == s[0] {
                assert(s.contains(s[0]));
            } else {
                assert(rest.contains(e));
                let m = choose|m: int| 0 <= m < rest.len() && rest[m] == e;
                assert(s[m + 1] == e);
            }
        }
        assert forall|e: ScoredV| #[trigger] s.contains(e) implies r.contains(e) by {
            let m = choose|m: int| 0 <= m < s.len() && s[m] == e;
            if m == 0 {
                assert(r.contains(s[0]));
            } else {
                assert(rest[m - 1] == e);
                assert(rest.contains(e));
            }
        }
    }
}

/// Inserting an element whose score is a lower bound keeps the two-key
/// order of the length pass.
proof fn lemma_insert_lex(s: Seq<ScoredV>, x: ScoredV)
    requires
        lex_sorted(s),
        forall|k: int| 0 <= k < s.len() ==> x.dist <= #[trigger] s[k].dist,
    ensures
        lex_sorted(insert_sorted_spec(true, s, x)),
    decreases s.len(),
{
    let r = insert_sorted_spec(true, s, x);
    if s.len() == 0 {
    } else if key_of(true, s.last()) < key_of(true, x) {
        assert forall|i: int, j: int|
            #![trigger r[i], r[j]]
            0 <= i < j < r.len() implies (r[i].len < r[j].len || (r[i].len == r[j].len && r[i].dist
            <= r[j].dist)) by {
            if j < s.len() {
                assert(r[i] == s[i] && r[j] == s[j]);
            } else {
                assert(r[j] == x);
                assert(r[i] == s[i]);
                if i < s.len() - 1 {
                    assert(s[i].len < s[s.len() - 1].len || (s[i].len == s[s.len() - 1].len
                        && s[i].dist <= s[s.len() - 1].dist));
                }
            }
        }
    } else {
        assert(lex_sorted(s.drop_last())) by {
            assert forall|i: int, j: int|
                #![trigger s.drop_last()[i], s.drop_last()[j]]
                0 <= i < j < s.drop_last().len() implies (s.drop_last()[i].len
                < s.drop_last()[j].len || (s.drop_last()[i].len == s.drop_last()[j].len
                && s.drop_last()[i].dist <= s.drop_last()[j].dist)) by {
                assert(s.drop_last()[i] == s[i] && s.drop_last()[j] == s[j]);
            }
        }
        assert forall|k: int|
            0 <= k < s.drop_last().len() implies x.dist <= #[trigger] s.drop_last()[k].dist by {
            assert(s.drop_last()[k] == s[k]);
        }
        lemma_insert_lex(s.drop_last(), x);
        lemma_insert_props(true, s.drop_last(), x);
        let r0 = insert_sorted_spec(true, s.drop_last(), x);
        assert forall|i: int, j: int|
            #![trigger r[i], r[j]]
            0 <= i < j < r.len() implies (r[i].len < r[j].len || (r[i].len == r[j].len && r[i].dist
            <= r[j].dist)) by {
            if j < r0.len() {
                assert(r[i] == r0[i] && r[j] == r0[j]);
            } else {
                assert(r[j] == s.last());
                assert(r[i] == r0[i]);
                assert(r0.contains(r0[i]));
                if s.drop_last().contains(r0[i]) {
                    let m = choose|m: int|
                        0 <= m < s.drop_last().len() && s.drop_last()[m] == r0[i];
                    assert(s[m] == r0[i]);
                    assert(s[m].len < s[s.len() - 1].len || (s[m].len == s[s.len() - 1].len
                        && s[m].dist <= s[s.len() - 1].dist));
                } else {
                    assert(r0[i] == x);
                    // x's length is not above the last element's, and its
                    // score bounds every score, the last one's included.
                    assert(x.dist <= s[s.len() - 1].dist);
                }
            }
        }
    }
}

/// The length pass, run after the score pass, leaves the list ordered by
/// length first and score second: the second stable sort keeps the first
/// pass's order among equal lengths.
proof fn lemma_sort_lex(s: Seq<ScoredV>)
    requires
        key_sorted(false, s),
    ensures
        lex_sorted(sort_spec(true, s)),
    decreases s.len(),
{
    if s.len() == 0 {
    } else {
        let rest = s.subrange(1, s.len() as int);
        assert(key_sorted(false, rest)) by {
            assert forall|i: int, j: int|
                #![trigger rest[i], rest[j]]
                0 <= i < j < rest.len() implies key_of(false, rest[i]) <= key_of(
                false,
                rest[j],
            ) by {
                assert(rest[i] == s[i + 1] && rest[j] == s[j + 1]);
            }
        }
        lemma_sort_lex(rest);
        lemma_sort_props(true, rest);
        let r0 = sort_spec(true, rest);
        assert forall|k: int| 0 <= k < r0.len() implies s[0].dist <= #[trigger] r0[k].dist by {
            assert(r0.contains(r0[k]));
            assert(rest.contains(r0[k]));
            let m = choose|m: int| 0 <= m < rest.len() && rest[m] == r0[k];
            assert(rest[m] == s[m + 1]);
            assert(key_of(false, s[0]) <= key_of(false, s[m + 1]));
        }
        lemma_insert_lex(r0, s[0]);
    }
}

/// The ghost image of the suggestion built for match `w`: the word, its
/// joined display string, its score against the query, and its length.
pub open spec fn make_scored(defs: Definitions, q: Seq<char>, w: Seq<char>) -> ScoredV {
    ScoredV { key: w, disp: defs.spec_display_of(w), dist: score(q, w), len: w.len() }
}

pub open spec fn scored_seq(defs: Definitions, q: Seq<char>, kept: Seq<Seq<char>>) -> Seq<
    ScoredV,
> {
    kept.map_values(|w: Seq<char>| make_scored(defs, q, w))
}

/// What completion returns, as a function of the index, the definition
/// store and the query alone: search, keep the first 100 matches, score,
/// sort by score and then by length, and show (key, display) pairs.
pub open spec fn spec_complete(gst: Gst, defs: Definitions, q: Seq<char>) -> Seq<
    (Seq<char>, Seq<char>),
> {
    let m = spec_search(gst.tree, q);
    let kept = if m.len() <= 100 {
        m
    } else {
        m.subrange(0, 100)
    };
    let s2 = sort_spec(true, sort_spec(false, scored_seq(defs, q, kept)));
    s2.map_values(|e: ScoredV| (e.key, e.disp))
}

/// Ranked completion of `text` against the index and the definition store.
///
/// The result is a function of its inputs alone (so asking again gives the
/// same suggestions), holds at most 100 entries, each entry is a
/// vocabulary word containing the query with its display joined from its
/// senses, shorter words come first with the score breaking ties among
/// words of one length, and when no more than 100 words match, every
/// matching word is suggested.
pub fn complete(gst: &Gst, definitions: &Definitions, text: &String) -> (r: Vec<Suggestion>)
    requires
        gst.wf(),
        definitions.wf(),
    ensures
        sug_views(r@) == spec_complete(*gst, *definitions, text@),
        r@.len() <= 100,
        r@.len() == if spec_search(gst.tree, text@).len() <= 100 {
            spec_search(gst.tree, text@).len()
        } else {
            100nat
        },
        forall|i: int, j: int|
            #![trigger r@[i], r@[j]]
            0 <= i < j < r@.len() ==> (r@[i].key@.len() < r@[j].key@.len() || (r@[i].key@.len()
                == r@[j].key@.len() && score(text@, r@[i].key@) <= score(text@, r@[j].key@))),
        forall|i: int|
            #![trigger r@[i]]
            0 <= i < r@.len() ==> gst.vocab@.contains(r@[i].key@) && is_substring(
                text@,
                r@[i].key@,
            ) && r@[i].word_display@ == definitions.spec_display_of(r@[i].key@),
        forall|w: Seq<char>|
            spec_search(gst.tree, text@).len() <= 100 && #[trigger] spec_search(
                gst.tree,
                text@,
            ).contains(w) ==> exists|i: int| 0 <= i < r@.len() && r@[i].key@ == w,
{
    let ghost q = text@;
    let ghost defs = *definitions;
    let ghost msv = spec_search(gst.tree, q);
    let matches = gst.search(text.clone());
    let mut kept = matches;
    kept.truncate(100);
    let ghost keptv = if msv.len() <= 100 {
        msv
    } else {
        msv.subrange(0, 100)
    };
    proof {
        assert(word_seq_views(kept@) =~= keptv);
    }
    let n = kept.len();
    let mut scored: Vec<Scored> = Vec::new();
    let mut i: usize = 0;
    proof {
        assert(scored_views(scored@) =~= scored_seq(defs, q, keptv.subrange(0, 0)));
    }
    while i < n
        invariant
            i <= n,
            n == kept.len(),
            definitions.wf(),
            defs == *definitions,
            q == text@,
            word_seq_views(kept@) == keptv,
            scored_views(scored@) == scored_seq(defs, q, keptv.subrange(0, i as int)),
        decreases n - i,
    {
        let w_key = kept[i].clone();
        let disp = definitions.display_string(&kept[i]);
        let d = multi_levenshtein(text.as_str(), kept[i].as_str());
        let l = kept[i].as_str().unicode_len();
        let e = Scored { sug: Suggestion { key: w_key, word_display: disp }, dist: d, len: l };
        proof {
            assert(keptv[i as int] == kept@[i as int]@);
            assert(scored_view(e) == make_scored(defs, q, keptv[i as int]));
        }
        let ghost sc0 = scored@;
        scored.push(e);
        proof {
            let pre = keptv.subrange(0, i as int);
            let cur = keptv.subrange(0, i as int + 1);
            assert(scored@ == sc0.push(e));
            assert(scored_views(sc0) == scored_seq(defs, q, pre));
            assert(scored_views(sc0).len() == sc0.len());
            assert(scored_seq(defs, q, pre).len() == pre.len());
            assert(sc0.len() == i);
            assert(scored@.len() == i + 1);
            assert forall|k: int|
                0 <= k < cur.len() implies scored_views(scored@)[k] == scored_seq(
                defs,
                q,
                cur,
            )[k] by {
                assert(cur[k] == keptv[k]);
                assert(scored_seq(defs, q, cur)[k] == make_scored(defs, q, cur[k]));
                if k < i {
                    assert(pre[k] == keptv[k]);
                    assert(scored@[k] == sc0[k]);
                    assert(scored_views(scored@)[k] == scored_view(scored@[k]));
                    assert(scored_views(sc0)[k] == scored_view(sc0[k]));
                    assert(scored_views(sc0)[k] == scored_seq(defs, q, pre)[k]);
                    assert(scored_seq(defs, q, pre)[k] == make_scored(defs, q, pre[k]));
                } else {
                    assert(scored@[k] == e);
                    assert(scored_views(scored@)[k] == scored_view(e));
                }
            }
            assert(scored_views(scored@).len() == cur.len());
            assert(scored_views(scored@) =~= scored_seq(defs, q, cur));
        }
        i = i + 1;
    }
    proof {
        assert(keptv.subrange(0, n as int) =~= keptv);
    }
    let sorted1 = sort_scored(scored, false);
    let sorted2 = sort_scored(sorted1, true);
    let ghost base = scored_seq(defs, q, keptv);
    let ghost s1v = sort_spec(false, base);
    let ghost s2v = sort_spec(true, s1v);
    proof {
        assert(scored_views(sorted2@) == s2v);
        lemma_sort_props(false, base);
        lemma_sort_props(true, s1v);
        lemma_sort_lex(s1v);
        // Every ranked element is the scored image of some kept match.
        assert forall|k: int|
            0 <= k < s2v.len() implies (msv.contains(#[trigger] s2v[k].key) && s2v[k].disp
            == defs.spec_display_of(s2v[k].key) && s2v[k].dist == score(q, s2v[k].key) && s2v[k].len
            == s2v[k].key.len()) by {
            assert(s2v.contains(s2v[k]));
            assert(s1v.contains(s2v[k]));
            assert(base.contains(s2v[k]));
            let m = choose|m: int| 0 <= m < base.len() && base[m] == s2v[k];
            assert(base[m] == make_scored(defs, q, keptv[m]));
            if msv.len() <= 100 {
                assert(msv[m] == keptv[m]);
            } else {
                assert(msv[m] == keptv[m]);
            }
            assert(msv.contains(msv[m]));
        }
    }
    let mut rest = sorted2;
    let ghost orig = rest@;
    let mut out: Vec<Suggestion> = Vec::new();
    proof {
        assert(rest@ =~= orig.subrange(0, orig.len() as int));
    }
    while rest.len() > 0
        invariant
            out@.len() + rest@.len() == orig.len(),
            rest@ == orig.subrange(out@.len() as int, orig.len() as int),
            forall|k: int| 0 <= k < out@.len() ==> out@[k] == orig[k].sug,
        decreases rest@.len(),
    {
        let ghost done = out@.len() as int;
        let e = rest.remove(0);
        proof {
            assert(orig.subrange(done, orig.len() as int)[0] == orig[done]);
            assert(e == orig[done]);
            assert(rest@ =~= orig.subrange(done + 1, orig.len() as int));
        }
        out.push(e.sug);
    }
    proof {
        assert(s2v == scored_views(orig));
        assert forall|k: int| 0 <= k < out@.len() implies (out@[k].key@ == s2v[k].key
            && out@[k].word_display@ == s2v[k].disp) by {
            assert(out@[k] == orig[k].sug);
            assert(s2v[k] == scored_view(orig[k]));
        }
        assert(sug_views(out@) =~= s2v.map_values(|e: ScoredV| (e.key, e.disp)));
        // Matched keys are vocabulary words containing the query.
        assert forall|x: Seq<char>| #[trigger] msv.contains(x) implies (gst.vocab@.contains(x)
            && is_substring(q, x)) by {
            let m = choose|m: int| 0 <= m < msv.len() && msv[m] == x;
            assert(matches@[m]@ == x);
            assert(crate::tree::word_list_has_spec(matches@, x));
        }
        // The ordering law, read off the sorted ghost image.
        assert forall|i1: int, j1: int|
            #![trigger out@[i1], out@[j1]]
            0 <= i1 < j1 < out@.len() implies (out@[i1].key@.len() < out@[j1].key@.len() || (
            out@[i1].key@.len() == out@[j1].key@.len() && score(q, out@[i1].key@) <= score(
            q,
            out@[j1].key@,
        ))) by {
            assert(s2v[i1].len < s2v[j1].len || (s2v[i1].len == s2v[j1].len && s2v[i1].dist
                <= s2v[j1].dist));
        }
        assert forall|i1: int|
            #![trigger out@[i1]]
            0 <= i1 < out@.len() implies gst.vocab@.contains(out@[i1].key@) && is_substring(
            q,
            out@[i1].key@,
        ) && out@[i1].word_display@ == defs.spec_display_of(out@[i1].key@) by {
            assert(out@[i1].key@ == s2v[i1].key);
            assert(msv.contains(s2v[i1].key));
        }
        // With at most 100 matches nothing is cut, so each match shows up.
        assert forall|w: Seq<char>| msv.len() <= 100 && #[trigger] msv.contains(w) implies exists|
            i1: int,
        | 0 <= i1 < out@.len() && out@[i1].key@ == w by {
            let m = choose|m: int| 0 <= m < msv.len() && msv[m] == w;
            assert(keptv == msv);
            assert(base[m] == make_scored(defs, q, w));
            assert(base.contains(base[m]));
            assert(s1v.contains(base[m]));
            assert(s2v.contains(base[m]));
            let i1 = choose|i1: int| 0 <= i1 < s2v.len() && s2v[i1] == base[m];
            assert(out@[i1].key@ == w);
        }
    }
    out
}

/// Completing is idempotent: any two results of the same query against the
/// same index and definitions show the same suggestions in the same order.
pub proof fn lemma_complete_idempotent(
    gst: Gst,
    defs: Definitions,
    q: Seq<char>,
    r1: Seq<Suggestion>,
    r2: Seq<Suggestion>,
)
    requires
        sug_views(r1) == spec_complete(gst, defs, q),
        sug_views(r2) == spec_complete(gst, defs, q),
    ensures
        sug_views(r1) == sug_views(r2),
{
}

/// Stable sorted insertion by one runtime-selected key, mirroring
/// `insert_sorted_spec`.
fn insert_sorted(out: &mut Vec<Scored>, x: Scored, by_len: bool)
    ensures
        scored_views(final(out)@) == insert_sorted_spec(
            by_len,
            scored_views(old(out)@),
            scored_view(x),
        ),
    decreases old(out)@.len(),
{
    let n = out.len();
    let ghost sv = scored_views(out@);
    let ghost xv = scored_view(x);
    if n == 0 {
        out.push(x);
        proof {
            assert(scored_views(out@) =~= seq![xv]);
        }
        return ;
    }
    let last_key = if by_len {
        out[n - 1].len
    } else {
        out[n - 1].dist
    };
    let x_key = if by_len {
        x.len
    } else {
        x.dist
    };
    proof {
        assert(sv[n - 1 as int] == scored_view(out@[n - 1 as int]));
        assert(last_key as nat == key_of(by_len, sv.last()));
        assert(x_key as nat == key_of(by_len, xv));
    }
    if last_key < x_key {
        out.push(x);
        proof {
            assert(scored_views(out@) =~= sv.push(xv));
        }
    } else {
        let last = out.remove(n - 1);
        proof {
            assert(out@ =~= old(out)@.drop_last());
            assert(scored_views(out@) =~= sv.drop_last());
        }
        insert_sorted(out, x, by_len);
        out.push(last);
        proof {
            assert(scored_views(out@) =~= insert_sorted_spec(by_len, sv.drop_last(), xv).push(
                sv.last(),
            ));
        }
    }
}

/// Stable insertion sort by one runtime-selected key, mirroring
/// `sort_spec`.
fn sort_scored(v: Vec<Scored>, by_len: bool) -> (r: Vec<Scored>)
    ensures
        scored_views(r@) == sort_spec(by_len, scored_views(v@)),
    decreases v@.len(),
{
    let mut v = v;
    let ghost sv = scored_views(v@);
    if v.len() == 0 {
        proof {
            assert(scored_views(v@) =~= sort_spec(by_len, sv));
        }
        return v;
    }
    let first = v.remove(0);
    proof {
        assert(scored_views(v@) =~= sv.subrange(1, sv.len() as int));
        assert(scored_view(first) == sv[0]);
    }
    let mut r = sort_scored(v, by_len);
    insert_sorted(&mut r, first, by_len);
    r
}

} // verus!
