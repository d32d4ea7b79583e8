//! Substring occurrence, stated over character sequences.

use vstd::prelude::*;

verus! {

/// `p` occurs in `w` starting at position `i`.
pub open spec fn occurs_at(p: Seq<char>, w: Seq<char>, i: int) -> bool {
    0 <= i && i + p.len() <= w.len() && w.subrange(i, i + p.len() as int) == p
}

/// `p` is a contiguous substring of `w`.  The empty sequence is a substring
/// of every word, including the empty word.
pub open spec fn is_substring(p: Seq<char>, w: Seq<char>) -> bool {
    exists|i: int| occurs_at(p, w, i)
}

/// `p` occurs in `w` at some start position strictly before `k`.
pub open spec fn occurs_before(p: Seq<char>, w: Seq<char>, k: int) -> bool {
    exists|i: int| i < k && occurs_at(p, w, i)
}

/// `p` is a prefix of `q`.
pub open spec fn is_prefix(p: Seq<char>, q: Seq<char>) -> bool {
    p.len() <= q.len() && q.subrange(0, p.len() as int) == p
}

pub proof fn lemma_empty_substring(w: Seq<char>)
    ensures
        is_substring(Seq::<char>::empty(), w),
{
    assert(w.subrange(0, 0) =~= Seq::<char>::empty());
    assert(occurs_at(Seq::<char>::empty(), w, 0));
}

pub proof fn lemma_prefix_refl(p: Seq<char>)
    ensures
        is_prefix(p, p),
{
    assert(p.subrange(0, p.len() as int) =~= p);
}

pub proof fn lemma_prefix_push(p: Seq<char>, c: char)
    ensures
        is_prefix(p, p.push(c)),
{
    assert(p.push(c).subrange(0, p.len() as int) =~= p);
}

pub proof fn lemma_prefix_trans(p: Seq<char>, q: Seq<char>, r: Seq<char>)
    requires
        is_prefix(p, q),
        is_prefix(q, r),
    ensures
        is_prefix(p, r),
{
    assert(r.subrange(0, p.len() as int) =~= p) by {
        assert forall|i: int| 0 <= i < p.len() implies r[i] == p[i] by {
            assert(q[i] == r.subrange(0, q.len() as int)[i]);
            assert(p[i] == q.subrange(0, p.len() as int)[i]);
        }
    }
}

/// A prefix occurs wherever the longer string occurs.
pub proof fn lemma_occurs_at_prefix(p: Seq<char>, q: Seq<char>, w: Seq<char>, i: int)
    requires
        is_prefix(p, q),
        occurs_at(q, w, i),
    ensures
        occurs_at(p, w, i),
{
    assert(w.subrange(i, i + p.len() as int) =~= p) by {
        assert forall|j: int| 0 <= j < p.len() implies w[i + j] == p[j] by {
            assert(q[j] == w.subrange(i, i + q.len() as int)[j]);
            assert(p[j] == q.subrange(0, p.len() as int)[j]);
        }
    }
}

/// A prefix of a substring is itself a substring.
pub proof fn lemma_prefix_substring(p: Seq<char>, q: Seq<char>, w: Seq<char>)
    requires
        is_prefix(p, q),
        is_substring(q, w),
    ensures
        is_substring(p, w),
{
    let i = choose|i: int| occurs_at(q, w, i);
    lemma_occurs_at_prefix(p, q, w, i);
}

/// For a nonempty pattern, being a substring is the same as occurring at a
/// start position strictly before the end of the word.
pub proof fn lemma_substring_occurs_before(p: Seq<char>, w: Seq<char>)
    requires
        p.len() > 0,
    ensures
        is_substring(p, w) <==> occurs_before(p, w, w.len() as int),
{
    if is_substring(p, w) {
        let i = choose|i: int| occurs_at(p, w, i);
        assert(i < w.len());
    }
}

/// Appending one character to a sequence is injective.
pub proof fn lemma_push_injective(p: Seq<char>, c: char, q: Seq<char>, d: char)
    requires
        p.push(c) == q.push(d),
    ensures
        p == q,
        c == d,
{
    let l = p.len() as int;
    assert(p.push(c).len() == l + 1);
    assert(q.push(d).len() == q.len() + 1);
    assert(q.len() == l);
    assert forall|i: int| 0 <= i < l implies p[i] == q[i] by {
        assert(p.push(c)[i] == p[i]);
        assert(q.push(d)[i] == q[i]);
    }
    assert(p =~= q);
    assert(p.push(c)[l] == c);
    assert(q.push(d)[l] == d);
}

} // verus!
