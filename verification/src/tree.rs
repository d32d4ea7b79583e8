//! The generalized suffix tree: a substring index over a vocabulary.
//!
//! Every node stands for the string spelled by the path from the root; it
//! stores the set of vocabulary words containing that string as a substring,
//! and one child per next character that extends some stored suffix.
//! Building inserts, for every word, every suffix of the word, recording the
//! word at every node the insertion walk visits; searching walks the query
//! and returns the words recorded at the node reached.

use vstd::prelude::*;
use vstd::string::StrSliceExecFns;

use crate::substring::is_substring;
use crate::substring::is_prefix;
use crate::substring::occurs_at;
use crate::substring::occurs_before;
use crate::substring::lemma_prefix_refl;
use crate::substring::lemma_prefix_push;
use crate::substring::lemma_prefix_trans;
use crate::substring::lemma_prefix_substring;
use crate::substring::lemma_empty_substring;
use crate::substring::lemma_substring_occurs_before;
use crate::substring::lemma_occurs_at_prefix;
use crate::substring::lemma_push_injective;

verus! {

/// One tree node: the words recorded for this node's path, and the children
/// keyed by character.
pub struct TreeNode {
    pub words: Vec<String>,
    pub children: Vec<(char, TreeNode)>,
}

/// `x` occurs among the views of `ws`.
pub open spec fn word_list_has_spec(ws: Seq<String>, x: Seq<char>) -> bool {
    exists|i: int| 0 <= i < ws.len() && ws[i]@ == x
}

/// No two entries of `ws` are the same word.
pub open spec fn words_dup_free(ws: Seq<String>) -> bool {
    forall|i: int, j: int| 0 <= i < j < ws.len() ==> ws[i]@ != ws[j]@
}

/// The views of the words of `ws`, in order.
pub open spec fn word_seq_views(ws: Seq<String>) -> Seq<Seq<char>> {
    ws.map_values(|w: String| w@)
}

/// `x` is one of the words recorded at node `n`.
pub open spec fn node_has_word(n: TreeNode, x: Seq<char>) -> bool {
    word_list_has_spec(n.words@, x)
}

/// Node `n` has a child for character `c`.
pub open spec fn node_has_child(n: TreeNode, c: char) -> bool {
    exists|i: int| 0 <= i < n.children.len() && n.children[i].0 == c
}

pub open spec fn child_index(n: TreeNode, c: char) -> int {
    choose|i: int| 0 <= i < n.children.len() && n.children[i].0 == c
}

pub open spec fn child_node(n: TreeNode, c: char) -> TreeNode {
    n.children[child_index(n, c)].1
}

/// The whole subtree rooted at `n` agrees with the membership predicate `b`:
/// node `n` stands for path `p`, and for every descendant path `q`, the words
/// recorded there are exactly those `x` with `b(x, q)`, a child exists
/// exactly when some word is recorded below it, and neither words nor child
/// characters repeat.
pub open spec fn subtree_inv(
    n: TreeNode,
    p: Seq<char>,
    b: spec_fn(Seq<char>, Seq<char>) -> bool,
) -> bool
    decreases n,
{
    &&& (forall|x: Seq<char>| node_has_word(n, x) <==> b(x, p))
    &&& words_dup_free(n.words@)
    &&& (forall|i: int, j: int|
        0 <= i < j < n.children.len() ==> n.children[i].0 != n.children[j].0)
    &&& (forall|c: char| node_has_child(n, c) <==> exists|x: Seq<char>| #[trigger] b(x, p.push(c)))
    &&& (forall|i: int|
        0 <= i < n.children.len() ==> subtree_inv(
            n.children[i].1,
            p.push(n.children[i].0),
            b,
        ))
}

/// Membership predicate of a finished index over vocabulary `v`: word `x` is
/// recorded at the node for path `q` iff `x` is in the vocabulary and `q` is
/// a substring of `x`.
pub open spec fn vocab_pred(v: Set<Seq<char>>) -> spec_fn(Seq<char>, Seq<char>) -> bool {
    |x: Seq<char>, q: Seq<char>| v.contains(x) && is_substring(q, x)
}

/// Membership predicate while word `w` is being inserted over vocabulary
/// `v`: `v` is fully recorded, and `w` is recorded at the root and along
/// every occurrence of a path inside `w` that starts before offset `k`.
pub open spec fn partial_pred(v: Set<Seq<char>>, w: Seq<char>, k: int) -> spec_fn(
    Seq<char>,
    Seq<char>,
) -> bool {
    |x: Seq<char>, q: Seq<char>|
        (v.contains(x) && is_substring(q, x)) || (x == w && (q.len() == 0 || occurs_before(
            q,
            w,
            k,
        )))
}

/// `b`, extended by recording `w` at the single path `q0`.
pub open spec fn point_pred(
    b: spec_fn(Seq<char>, Seq<char>) -> bool,
    w: Seq<char>,
    q0: Seq<char>,
) -> spec_fn(Seq<char>, Seq<char>) -> bool {
    |x: Seq<char>, q: Seq<char>| b(x, q) || (x == w && q == q0)
}

/// `b`, extended by recording `w` at every path that extends `p` by a
/// nonempty prefix of the suffix `s[j..]`.
pub open spec fn suffix_pred(
    b: spec_fn(Seq<char>, Seq<char>) -> bool,
    w: Seq<char>,
    s: Seq<char>,
    j: int,
    p: Seq<char>,
) -> spec_fn(Seq<char>, Seq<char>) -> bool {
    |x: Seq<char>, q: Seq<char>|
        b(x, q) || (x == w && exists|l: int|
            1 <= l <= s.len() - j && q == p + #[trigger] s.subrange(j, j + l))
}

/// `b` never records a word below a path where it is not also recorded.
pub open spec fn down_closed(b: spec_fn(Seq<char>, Seq<char>) -> bool) -> bool {
    forall|x: Seq<char>, q: Seq<char>, c: char| #[trigger] b(x, q.push(c)) ==> b(x, q)
}

/// Two membership predicates that agree at `p` and below it describe the
/// same subtrees.
pub proof fn lemma_subtree_inv_agree(
    n: TreeNode,
    p: Seq<char>,
    b1: spec_fn(Seq<char>, Seq<char>) -> bool,
    b2: spec_fn(Seq<char>, Seq<char>) -> bool,
)
    requires
        subtree_inv(n, p, b1),
        forall|x: Seq<char>, q: Seq<char>|
            #![trigger b1(x, q)]
            #![trigger b2(x, q)]
            is_prefix(p, q) ==> (b1(x, q) <==> b2(x, q)),
    ensures
        subtree_inv(n, p, b2),
    decreases n,
{
    lemma_prefix_refl(p);
    assert forall|c: char|
        node_has_child(n, c) <==> exists|x: Seq<char>| #[trigger] b2(x, p.push(c)) by {
        lemma_prefix_push(p, c);
        if node_has_child(n, c) {
            let x = choose|x: Seq<char>| #[trigger] b1(x, p.push(c));
            assert(b2(x, p.push(c)));
        }
        if exists|x: Seq<char>| #[trigger] b2(x, p.push(c)) {
            let x = choose|x: Seq<char>| #[trigger] b2(x, p.push(c));
            assert(b1(x, p.push(c)));
        }
    }
    assert forall|i: int| 0 <= i < n.children.len() implies subtree_inv(
        n.children[i].1,
        p.push(n.children[i].0),
        b2,
    ) by {
        let pc = p.push(n.children[i].0);
        lemma_prefix_push(p, n.children[i].0);
        assert forall|x: Seq<char>, q: Seq<char>|
            #![trigger b1(x, q)]
            #![trigger b2(x, q)]
            is_prefix(pc, q) implies (b1(x, q) <==> b2(x, q)) by {
            lemma_prefix_trans(p, pc, q);
        }
        lemma_subtree_inv_agree(n.children[i].1, pc, b1, b2);
    }
}

/// Under a downward-closed predicate, a word recorded at a path is recorded
/// at every prefix of the path.
pub proof fn lemma_down_closed_prefix(
    b: spec_fn(Seq<char>, Seq<char>) -> bool,
    x: Seq<char>,
    q1: Seq<char>,
    q2: Seq<char>,
)
    requires
        down_closed(b),
        is_prefix(q1, q2),
        b(x, q2),
    ensures
        b(x, q1),
    decreases q2.len(),
{
    if q1.len() == q2.len() {
        assert(q1 =~= q2) by {
            assert(q2.subrange(0, q2.len() as int) =~= q2);
        }
    } else {
        let q3 = q2.drop_last();
        assert(q2 =~= q3.push(q2.last()));
        assert(b(x, q3.push(q2.last())));
        assert(is_prefix(q1, q3)) by {
            assert(q3.subrange(0, q1.len() as int) =~= q2.subrange(0, q1.len() as int));
        }
        lemma_down_closed_prefix(b, x, q1, q3);
    }
}

/// The vocabulary predicate is downward closed: a prefix of a substring is a
/// substring.
pub proof fn lemma_down_closed_vocab(v: Set<Seq<char>>)
    ensures
        down_closed(vocab_pred(v)),
{
    let b = vocab_pred(v);
    assert forall|x: Seq<char>, q: Seq<char>, c: char| #[trigger] b(x, q.push(c)) implies b(
        x,
        q,
    ) by {
        lemma_prefix_push(q, c);
        lemma_prefix_substring(q, q.push(c), x);
    }
}

/// The one-character step of a suffix insertion: extending `p` by a nonempty
/// prefix of `s[j..]` is extending it by `s[j]` alone, or by `s[j]` and then
/// a nonempty prefix of `s[j+1..]`.
pub proof fn lemma_suffix_ext_step(p: Seq<char>, s: Seq<char>, j: int, q: Seq<char>)
    requires
        0 <= j < s.len(),
    ensures
        (exists|l: int| 1 <= l <= s.len() - j && q == p + #[trigger] s.subrange(j, j + l)) <==> (q
            == p.push(s[j]) || (exists|l: int|
            1 <= l <= s.len() - (j + 1) && q == p.push(s[j]) + #[trigger] s.subrange(
                j + 1,
                j + 1 + l,
            ))),
{
    let pc = p.push(s[j]);
    assert(p + s.subrange(j, j + 1) =~= pc);
    if exists|l: int| 1 <= l <= s.len() - j && q == p + #[trigger] s.subrange(j, j + l) {
        let l = choose|l: int| 1 <= l <= s.len() - j && q == p + #[trigger] s.subrange(j, j + l);
        if l == 1 {
            assert(q == pc);
        } else {
            assert(p + s.subrange(j, j + l) =~= pc + s.subrange(j + 1, j + l));
            assert(1 <= l - 1 <= s.len() - (j + 1) && q == pc + s.subrange(j + 1, j + 1 + (l - 1)));
        }
    }
    if q == pc {
        assert(1 <= 1 <= s.len() - j && q == p + s.subrange(j, j + 1));
    }
    if exists|l: int| 1 <= l <= s.len() - (j + 1) && q == pc + #[trigger] s.subrange(
        j + 1,
        j + 1 + l,
    ) {
        let l = choose|l: int|
            1 <= l <= s.len() - (j + 1) && q == pc + #[trigger] s.subrange(j + 1, j + 1 + l);
        assert(p + s.subrange(j, j + l + 1) =~= pc + s.subrange(j + 1, j + 1 + l));
        assert(1 <= l + 1 <= s.len() - j && q == p + s.subrange(j, j + (l + 1)));
    }
}

/// Removing an element of a sequence and inserting another at the same place
/// is an update.
pub proof fn lemma_remove_insert<A>(s: Seq<A>, i: int, v: A)
    requires
        0 <= i < s.len(),
    ensures
        s.remove(i).insert(i, v) =~= s.update(i, v),
{
    let r = s.remove(i).insert(i, v);
    assert forall|j: int| 0 <= j < s.len() implies r[j] == s.update(i, v)[j] by {
        if j < i {
            assert(s.remove(i)[j] == s[j]);
        } else if j > i {
            assert(s.remove(i)[j - 1] == s[j]);
        }
    }
}

impl TreeNode {
    /// A fresh node: no words recorded, no children.
    pub fn new() -> (n: TreeNode)
        ensures
            n.words@.len() == 0,
            n.children@.len() == 0,
    {
        TreeNode { words: Vec::new(), children: Vec::new() }
    }
}

/// Index of the child of `n` keyed by `c`, if there is one.
fn find_child(children: &Vec<(char, TreeNode)>, c: char) -> (r: Option<usize>)
    ensures
        match r {
            Some(i) => i < children.len() && children[i as int].0 == c,
            None => forall|k: int| 0 <= k < children.len() ==> children[k].0 != c,
        },
{
    let mut i: usize = 0;
    while i < children.len()
        invariant
            i <= children.len(),
            forall|k: int| 0 <= k < i ==> children[k].0 != c,
        decreases children.len() - i,
    {
        if children[i].0 == c {
            return Some(i);
        }
        i = i + 1;
    }
    None
}

/// Whether `w` is already recorded in `words`.
fn word_list_has(words: &Vec<String>, w: &String) -> (r: bool)
    ensures
        r == word_list_has_spec(words@, w@),
{
    let mut i: usize = 0;
    while i < words.len()
        invariant
            i <= words.len(),
            forall|k: int| 0 <= k < i ==> words[k]@ != w@,
        decreases words.len() - i,
    {
        if words[i] == *w {
            return true;
        }
        i = i + 1;
    }
    false
}

/// Record `w` in `words` unless it is already there: set insertion.
fn push_word(words: &mut Vec<String>, w: &String)
    ensures
        forall|x: Seq<char>|
            word_list_has_spec(final(words)@, x) <==> (word_list_has_spec(old(words)@, x) || x
                == w@),
        words_dup_free(old(words)@) ==> words_dup_free(final(words)@),
{
    if !word_list_has(words, w) {
        words.push(w.clone());
        assert forall|x: Seq<char>|
            word_list_has_spec(words@, x) <==> (word_list_has_spec(old(words)@, x) || x
                == w@) by {
            if word_list_has_spec(words@, x) {
                let i = choose|i: int| 0 <= i < words@.len() && words@[i]@ == x;
                if i < old(words)@.len() {
                    assert(word_list_has_spec(old(words)@, x));
                }
            }
            if word_list_has_spec(old(words)@, x) {
                let i = choose|i: int| 0 <= i < old(words)@.len() && old(words)@[i]@ == x;
                assert(words@[i]@ == x);
            }
            if x == w@ {
                assert(words@[old(words)@.len() as int]@ == w@);
            }
        }
    }
}

/// Insert the suffix `s[j..]` below node `n` (which stands for path `p`),
/// recording `w` at every node the walk visits below `n` and creating the
/// missing nodes.
fn insert_suffix(
    n: &mut TreeNode,
    s: &Vec<char>,
    j: usize,
    w: &String,
    Ghost(p): Ghost<Seq<char>>,
    Ghost(b): Ghost<spec_fn(Seq<char>, Seq<char>) -> bool>,
)
    requires
        subtree_inv(*old(n), p, b),
        down_closed(b),
        b(w@, p),
        j <= s.len(),
    ensures
        subtree_inv(*final(n), p, suffix_pred(b, w@, s@, j as int, p)),
    decreases s@.len() - j,
{
    let ghost n0 = *n;
    let ghost bfin = suffix_pred(b, w@, s@, j as int, p);
    if j == s.len() {
        proof {
            assert forall|x: Seq<char>, q: Seq<char>|
                #![trigger b(x, q)]
                #![trigger bfin(x, q)]
                is_prefix(p, q) implies (b(x, q) <==> bfin(x, q)) by {}
            lemma_subtree_inv_agree(*n, p, b, bfin);
        }
        return;
    }
    let c = s[j];
    let ghost pc = p.push(c);
    let ghost b1 = point_pred(b, w@, pc);
    proof {
        assert(p + s@.subrange(j as int, j as int + 1) =~= pc);
        // b1 inherits downward closure because `w` is already recorded at `p`.
        assert forall|x: Seq<char>, q: Seq<char>, c2: char| #[trigger] b1(x, q.push(c2)) implies b1(
            x,
            q,
        ) by {
            if !b(x, q.push(c2)) {
                lemma_push_injective(q, c2, p, c);
            }
        }
    }
    let idx: usize;
    match find_child(&n.children, c) {
        Some(i) => {
            idx = i;
        },
        None => {
            proof {
                assert(!node_has_child(n0, c));
                assert(!(exists|x: Seq<char>| #[trigger] b(x, pc)));
            }
            n.children.push((c, TreeNode::new()));
            idx = n.children.len() - 1;
            proof {
                // The fresh node satisfies the invariant for its (empty) subtree.
                let fresh = n.children[idx as int].1;
                assert forall|x: Seq<char>| node_has_word(fresh, x) <==> b(x, pc) by {}
                assert forall|c2: char|
                    node_has_child(fresh, c2) <==> exists|x: Seq<char>| #[trigger] b(
                        x,
                        pc.push(c2),
                    ) by {
                    if exists|x: Seq<char>| #[trigger] b(x, pc.push(c2)) {
                        let x = choose|x: Seq<char>| #[trigger] b(x, pc.push(c2));
                        assert(b(x, pc));
                    }
                }
                assert(subtree_inv(fresh, pc, b));
            }
        },
    }
    let ghost nmid = *n;
    proof {
        assert(nmid.words == n0.words);
        assert(idx < nmid.children.len() && nmid.children[idx as int].0 == c);
        assert(forall|k: int|
            0 <= k < nmid.children.len() && k != idx ==> 0 <= k < n0.children.len()
                && nmid.children[k] == n0.children[k]);
        assert forall|k1: int, k2: int| 0 <= k1 < k2 < nmid.children.len() implies nmid.children[k1].0
            != nmid.children[k2].0 by {
            if k2 == idx && idx == n0.children.len() {
                assert(n0.children[k1].0 != c);
            }
        }
        assert(subtree_inv(nmid.children[idx as int].1, pc, b));
        assert forall|c2: char|
            node_has_child(nmid, c2) <==> (node_has_child(n0, c2) || c2 == c) by {
            if node_has_child(nmid, c2) {
                let k = choose|k: int|
                    0 <= k < nmid.children.len() && nmid.children[k].0 == c2;
                if k != idx || idx < n0.children.len() {
                    assert(node_has_child(n0, c2));
                }
            }
            if node_has_child(n0, c2) {
                let k = choose|k: int| 0 <= k < n0.children.len() && n0.children[k].0 == c2;
                assert(nmid.children[k].0 == c2);
            }
        }
    }
    let mut pair: (char, TreeNode) = n.children.remove(idx);
    let ghost child_pre = pair.1;
    push_word(&mut pair.1.words, w);
    let ghost child_mid = pair.1;
    proof {
        assert(pair.0 == c);
        // The child, with `w` recorded, satisfies the invariant for b1.
        assert forall|x: Seq<char>| node_has_word(child_mid, x) <==> b1(x, pc) by {
            assert(node_has_word(child_pre, x) <==> b(x, pc));
        }
        assert forall|c2: char|
            node_has_child(child_mid, c2) <==> exists|x: Seq<char>| #[trigger] b1(
                x,
                pc.push(c2),
            ) by {
            assert(node_has_child(child_mid, c2) == node_has_child(child_pre, c2));
            if exists|x: Seq<char>| #[trigger] b1(x, pc.push(c2)) {
                let x = choose|x: Seq<char>| #[trigger] b1(x, pc.push(c2));
                assert(pc.push(c2).len() == pc.len() + 1);
                assert(b(x, pc.push(c2)));
            }
            if node_has_child(child_pre, c2) {
                let x = choose|x: Seq<char>| #[trigger] b(x, pc.push(c2));
                assert(b1(x, pc.push(c2)));
            }
        }
        assert forall|k: int| 0 <= k < child_mid.children.len() implies subtree_inv(
            child_mid.children[k].1,
            pc.push(child_mid.children[k].0),
            b1,
        ) by {
            let pcc = pc.push(child_mid.children[k].0);
            assert(subtree_inv(child_pre.children[k].1, pcc, b));
            lemma_prefix_push(pc, child_mid.children[k].0);
            assert forall|x: Seq<char>, q: Seq<char>|
                #![trigger b(x, q)]
                #![trigger b1(x, q)]
                is_prefix(pcc, q) implies (b(x, q) <==> b1(x, q)) by {
                assert(q.len() >= pcc.len() > pc.len());
            }
            lemma_subtree_inv_agree(child_pre.children[k].1, pcc, b, b1);
        }
        assert(subtree_inv(child_mid, pc, b1));
        assert(b1(w@, pc));
    }
    insert_suffix(&mut pair.1, s, j + 1, w, Ghost(pc), Ghost(b1));
    let ghost child_fin = pair.1;
    let ghost b2 = suffix_pred(b1, w@, s@, j as int + 1, pc);
    proof {
        // The recursion's predicate is bfin, seen from one step down.
        assert forall|x: Seq<char>, q: Seq<char>|
            #![trigger b2(x, q)]
            #![trigger bfin(x, q)]
            is_prefix(pc, q) implies (b2(x, q) <==> bfin(x, q)) by {
            lemma_suffix_ext_step(p, s@, j as int, q);
        }
        lemma_subtree_inv_agree(child_fin, pc, b2, bfin);
    }
    n.children.insert(idx, pair);
    proof {
        let nfin = *n;
        lemma_remove_insert(nmid.children@, idx as int, (c, child_fin));
        assert(nfin.children@ =~= nmid.children@.update(idx as int, (c, child_fin)));
        assert(forall|k: int|
            0 <= k < nfin.children.len() ==> nfin.children[k].0 == nmid.children[k].0);
        // Words at `n` itself are untouched: no nonempty extension equals `p`.
        assert forall|x: Seq<char>| node_has_word(nfin, x) <==> bfin(x, p) by {
            assert(node_has_word(nfin, x) <==> node_has_word(n0, x));
            if !b(x, p) && bfin(x, p) {
                let l = choose|l: int|
                    1 <= l <= s@.len() - j && p == p + #[trigger] s@.subrange(j as int, j as int + l);
                assert((p + s@.subrange(j as int, j as int + l)).len() == p.len() + l);
            }
        }
        // Child existence.
        assert forall|c2: char|
            node_has_child(nfin, c2) <==> exists|x: Seq<char>| #[trigger] bfin(
                x,
                p.push(c2),
            ) by {
            assert(node_has_child(nfin, c2) == node_has_child(nmid, c2));
            if node_has_child(nfin, c2) {
                if c2 == c {
                    assert(bfin(w@, pc)) by {
                        assert(1 <= 1 <= s@.len() - j && pc == p + s@.subrange(
                            j as int,
                            j as int + 1,
                        ));
                    }
                } else {
                    assert(node_has_child(n0, c2));
                    let x = choose|x: Seq<char>| #[trigger] b(x, p.push(c2));
                    assert(bfin(x, p.push(c2)));
                }
            }
            if exists|x: Seq<char>| #[trigger] bfin(x, p.push(c2)) {
                let x = choose|x: Seq<char>| #[trigger] bfin(x, p.push(c2));
                if b(x, p.push(c2)) {
                    assert(node_has_child(n0, c2));
                } else {
                    let l = choose|l: int|
                        1 <= l <= s@.len() - j && p.push(c2) == p + #[trigger] s@.subrange(
                            j as int,
                            j as int + l,
                        );
                    assert((p + s@.subrange(j as int, j as int + l)).len() == p.len() + l);
                    assert(l == 1);
                    assert(p.push(c2) == pc);
                    lemma_push_injective(p, c2, p, c);
                }
            }
        }
        // Subtrees.
        assert forall|k: int| 0 <= k < nfin.children.len() implies subtree_inv(
            nfin.children[k].1,
            p.push(nfin.children[k].0),
            bfin,
        ) by {
            if k == idx {
                assert(nfin.children[k].1 == child_fin);
            } else {
                let ck = nfin.children[k].0;
                assert(nfin.children[k] == n0.children[k]);
                assert(subtree_inv(n0.children[k].1, p.push(ck), b));
                assert(ck != c);
                lemma_prefix_push(p, ck);
                assert forall|x: Seq<char>, q: Seq<char>|
                    #![trigger b(x, q)]
                    #![trigger bfin(x, q)]
                    is_prefix(p.push(ck), q) implies (b(x, q) <==> bfin(x, q)) by {
                    if !b(x, q) && bfin(x, q) {
                        let l = choose|l: int|
                            1 <= l <= s@.len() - j && q == p + #[trigger] s@.subrange(
                                j as int,
                                j as int + l,
                            );
                        assert(q[p.len() as int] == s@[j as int]) by {
                            assert((p + s@.subrange(j as int, j as int + l))[p.len() as int]
                                == s@.subrange(j as int, j as int + l)[0]);
                        }
                        assert(q[p.len() as int] == ck) by {
                            assert(q.subrange(0, p.len() as int + 1) == p.push(ck));
                            assert(q.subrange(0, p.len() as int + 1)[p.len() as int]
                                == q[p.len() as int]);
                        }
                    }
                }
                lemma_subtree_inv_agree(n0.children[k].1, p.push(ck), b, bfin);
            }
        }
        assert(subtree_inv(nfin, p, bfin));
    }
}

/// The characters of `s`, in order.
fn str_to_chars(s: &str) -> (r: Vec<char>)
    ensures
        r@ == s@,
{
    let mut r: Vec<char> = Vec::new();
    let n = s.unicode_len();
    let mut i: usize = 0;
    while i < n
        invariant
            i <= n,
            n == s@.len(),
            r@ == s@.subrange(0, i as int),
        decreases n - i,
    {
        r.push(s.get_char(i));
        proof {
            assert(r@ =~= s@.subrange(0, i as int + 1));
        }
        i = i + 1;
    }
    proof {
        assert(r@ =~= s@);
    }
    r
}

/// Insert one word: record it at the root, then insert every suffix of it.
fn add_word(tree: &mut TreeNode, word: &String, Ghost(v): Ghost<Set<Seq<char>>>)
    requires
        subtree_inv(*old(tree), Seq::<char>::empty(), vocab_pred(v)),
    ensures
        subtree_inv(*final(tree), Seq::<char>::empty(), vocab_pred(v.insert(word@))),
{
    let ghost w = word@;
    let ghost root_path = Seq::<char>::empty();
    let s = str_to_chars(word.as_str());
    let ghost n0 = *tree;
    push_word(&mut tree.words, word);
    proof {
        let b0 = partial_pred(v, w, 0);
        // After recording `w` at the root, the tree matches the k = 0 stage.
        assert forall|x: Seq<char>| node_has_word(*tree, x) <==> b0(x, root_path) by {
            lemma_empty_substring(x);
            assert(node_has_word(n0, x) <==> vocab_pred(v)(x, root_path));
        }
        assert forall|c2: char|
            node_has_child(*tree, c2) <==> exists|x: Seq<char>| #[trigger] b0(
                x,
                root_path.push(c2),
            ) by {
            assert(node_has_child(*tree, c2) == node_has_child(n0, c2));
            if exists|x: Seq<char>| #[trigger] b0(x, root_path.push(c2)) {
                let x = choose|x: Seq<char>| #[trigger] b0(x, root_path.push(c2));
                assert(root_path.push(c2).len() == 1);
                assert(vocab_pred(v)(x, root_path.push(c2)));
            }
            if node_has_child(n0, c2) {
                let x = choose|x: Seq<char>| #[trigger] vocab_pred(v)(x, root_path.push(c2));
                assert(b0(x, root_path.push(c2)));
            }
        }
        assert forall|k: int| 0 <= k < tree.children.len() implies subtree_inv(
            tree.children[k].1,
            root_path.push(tree.children[k].0),
            b0,
        ) by {
            let pk = root_path.push(tree.children[k].0);
            assert(subtree_inv(n0.children[k].1, pk, vocab_pred(v)));
            assert forall|x: Seq<char>, q: Seq<char>|
                #![trigger vocab_pred(v)(x, q)]
                #![trigger b0(x, q)]
                is_prefix(pk, q) implies (vocab_pred(v)(x, q) <==> b0(x, q)) by {
                assert(q.len() >= pk.len() == 1);
            }
            lemma_subtree_inv_agree(n0.children[k].1, pk, vocab_pred(v), b0);
        }
        assert(subtree_inv(*tree, root_path, b0));
    }
    let mut k: usize = 0;
    while k < s.len()
        invariant
            s@ == word@,
            w == word@,
            root_path == Seq::<char>::empty(),
            k <= s.len(),
            subtree_inv(*tree, root_path, partial_pred(v, w, k as int)),
        decreases s.len() - k,
    {
        let ghost bk = partial_pred(v, w, k as int);
        proof {
            // bk is downward closed: substrings are prefix closed, and an
            // occurrence of a longer path is an occurrence of its prefix.
            assert forall|x: Seq<char>, q: Seq<char>, c2: char| #[trigger] bk(
                x,
                q.push(c2),
            ) implies bk(x, q) by {
                lemma_prefix_push(q, c2);
                if vocab_pred(v)(x, q.push(c2)) {
                    lemma_prefix_substring(q, q.push(c2), x);
                } else if occurs_before(q.push(c2), w, k as int) {
                    let i = choose|i: int| i < k && occurs_at(q.push(c2), w, i);
                    lemma_occurs_at_prefix(q, q.push(c2), w, i);
                }
            }
            assert(bk(w, root_path));
        }
        insert_suffix(tree, &s, k, word, Ghost(root_path), Ghost(bk));
        proof {
            let bstep = suffix_pred(bk, w, s@, k as int, root_path);
            let bk1 = partial_pred(v, w, k as int + 1);
            assert forall|x: Seq<char>, q: Seq<char>|
                #![trigger bstep(x, q)]
                #![trigger bk1(x, q)]
                is_prefix(root_path, q) implies (bstep(x, q) <==> bk1(x, q)) by {
                if x == w {
                    // An extension by a nonempty prefix of w[k..] is exactly
                    // an occurrence of q in w starting at k.
                    if exists|l: int|
                        1 <= l <= s@.len() - k && q == root_path + #[trigger] s@.subrange(
                            k as int,
                            k as int + l,
                        ) {
                        let l = choose|l: int|
                            1 <= l <= s@.len() - k && q == root_path + #[trigger] s@.subrange(
                                k as int,
                                k as int + l,
                            );
                        assert(q =~= w.subrange(k as int, k as int + l));
                        assert(occurs_at(q, w, k as int)) by {
                            assert(w.subrange(k as int, k as int + q.len() as int) == q);
                        }
                        assert(occurs_before(q, w, k as int + 1));
                    }
                    if !bstep(x, q) && bk1(x, q) {
                        // the new occurrence starts exactly at k
                        assert(q.len() != 0);
                        let i = choose|i: int| i < k + 1 && occurs_at(q, w, i);
                        assert(i == k);
                        let l = q.len() as int;
                        assert(q == root_path + s@.subrange(k as int, k as int + l)) by {
                            assert(root_path + s@.subrange(k as int, k as int + l) =~= w.subrange(
                                k as int,
                                k as int + l,
                            ));
                        }
                        assert(1 <= l <= s@.len() - k);
                    }
                }
            }
            lemma_subtree_inv_agree(*tree, root_path, bstep, bk1);
        }
        k = k + 1;
    }
    proof {
        let blast = partial_pred(v, w, s@.len() as int);
        let bnew = vocab_pred(v.insert(w));
        assert forall|x: Seq<char>, q: Seq<char>|
            #![trigger blast(x, q)]
            #![trigger bnew(x, q)]
            is_prefix(root_path, q) implies (blast(x, q) <==> bnew(x, q)) by {
            if x == w {
                if q.len() == 0 {
                    assert(q =~= Seq::<char>::empty());
                    lemma_empty_substring(w);
                    assert(is_substring(q, w));
                } else {
                    lemma_substring_occurs_before(q, w);
                }
            }
        }
        lemma_subtree_inv_agree(*tree, root_path, blast, bnew);
    }
}

/// The set of views of a list of words.
pub open spec fn word_views(ws: Seq<String>) -> Set<Seq<char>> {
    Set::new(|x: Seq<char>| exists|i: int| 0 <= i < ws.len() && ws[i]@ == x)
}

/// What a search returns, as a function of the tree and the query alone:
/// the words recorded, in stored order, at the node the query walk reaches,
/// or nothing if the walk falls off the tree.
pub open spec fn spec_search(n: TreeNode, q: Seq<char>) -> Seq<Seq<char>>
    decreases q.len(),
{
    if q.len() == 0 {
        word_seq_views(n.words@)
    } else if node_has_child(n, q[0]) {
        spec_search(child_node(n, q[0]), q.subrange(1, q.len() as int))
    } else {
        Seq::<Seq<char>>::empty()
    }
}

/// What a search finds is exactly what the membership predicate records at
/// the queried path, without repetition.
pub proof fn lemma_search_characterize(
    n: TreeNode,
    p: Seq<char>,
    b: spec_fn(Seq<char>, Seq<char>) -> bool,
    q: Seq<char>,
)
    requires
        subtree_inv(n, p, b),
        down_closed(b),
    ensures
        forall|x: Seq<char>| #[trigger] spec_search(n, q).contains(x) <==> b(x, p + q),
        forall|i: int, j: int|
            0 <= i < j < spec_search(n, q).len() ==> spec_search(n, q)[i] != spec_search(n, q)[j],
    decreases q.len(),
{
    if q.len() == 0 {
        assert(p + q =~= p);
        let r = spec_search(n, q);
        assert forall|x: Seq<char>| #[trigger] r.contains(x) <==> b(x, p + q) by {
            if r.contains(x) {
                let i = choose|i: int| 0 <= i < r.len() && r[i] == x;
                assert(n.words@[i]@ == x);
                assert(node_has_word(n, x));
            }
            if b(x, p + q) {
                assert(node_has_word(n, x));
                let i = choose|i: int| 0 <= i < n.words@.len() && n.words@[i]@ == x;
                assert(r[i] == x);
            }
        }
    } else if node_has_child(n, q[0]) {
        let c = q[0];
        let i = child_index(n, c);
        let ch = child_node(n, c);
        assert(0 <= i < n.children.len() && n.children[i].0 == c);
        assert(subtree_inv(ch, p.push(c), b));
        let qrest = q.subrange(1, q.len() as int);
        lemma_search_characterize(ch, p.push(c), b, qrest);
        assert(p.push(c) + qrest =~= p + q);
        assert(spec_search(n, q) == spec_search(ch, qrest));
        assert forall|x: Seq<char>| #[trigger] spec_search(n, q).contains(x) <==> b(x, p + q) by {
            assert(spec_search(ch, qrest).contains(x) <==> b(x, p.push(c) + qrest));
        }
    } else {
        assert(spec_search(n, q) == Seq::<Seq<char>>::empty());
        assert forall|x: Seq<char>| #[trigger] spec_search(n, q).contains(x) <==> b(x, p + q) by {
            if b(x, p + q) {
                assert(is_prefix(p.push(q[0]), p + q)) by {
                    assert((p + q).subrange(0, p.len() as int + 1) =~= p.push(q[0]));
                }
                lemma_down_closed_prefix(b, x, p.push(q[0]), p + q);
                assert(node_has_child(n, q[0]));
            }
            if spec_search(n, q).contains(x) {
                let i = choose|i: int|
                    0 <= i < spec_search(n, q).len() && spec_search(n, q)[i] == x;
            }
        }
    }
}

/// The substring index: a suffix tree over a vocabulary of words.  The
/// vocabulary itself is carried as ghost state; the tree is the only data.
pub struct Gst {
    pub tree: TreeNode,
    pub vocab: Ghost<Set<Seq<char>>>,
}

impl Gst {
    /// The index is well formed: the tree records exactly the substring
    /// structure of the vocabulary.
    pub open spec fn wf(self) -> bool {
        subtree_inv(self.tree, Seq::<char>::empty(), vocab_pred(self.vocab@))
    }

    /// Build the index for `words`.  Duplicate words collapse; an empty list
    /// yields an index in which every nonempty search comes back empty.
    pub fn new(words: Vec<String>) -> (gst: Gst)
        ensures
            gst.wf(),
            gst.vocab@ == word_views(words@),
    {
        let tree = TreeNode::new();
        let mut gst = Gst { tree, vocab: Ghost(Set::<Seq<char>>::empty()) };
        proof {
            let b = vocab_pred(Set::<Seq<char>>::empty());
            assert forall|x: Seq<char>| node_has_word(gst.tree, x) <==> b(
                x,
                Seq::<char>::empty(),
            ) by {}
            assert forall|c: char|
                node_has_child(gst.tree, c) <==> exists|x: Seq<char>| #[trigger] b(
                    x,
                    Seq::<char>::empty().push(c),
                ) by {
                if exists|x: Seq<char>| #[trigger] b(x, Seq::<char>::empty().push(c)) {
                    let x = choose|x: Seq<char>| #[trigger] b(x, Seq::<char>::empty().push(c));
                }
            }
            assert(gst.wf());
        }
        gst.add_words(words);
        proof {
            assert(gst.vocab@ =~= word_views(words@));
        }
        gst
    }

    /// Add every word of `words` to the index.
    pub fn add_words(&mut self, words: Vec<String>)
        requires
            old(self).wf(),
        ensures
            final(self).wf(),
            final(self).vocab@ == old(self).vocab@ + word_views(words@),
    {
        let n = words.len();
        let mut i: usize = 0;
        proof {
            assert(self.vocab@ =~= old(self).vocab@ + word_views(words@.subrange(0, 0)));
        }
        while i < n
            invariant
                i <= n,
                n == words.len(),
                self.wf(),
                self.vocab@ == old(self).vocab@ + word_views(words@.subrange(0, i as int)),
            decreases n - i,
        {
            add_word(&mut self.tree, &words[i], Ghost(self.vocab@));
            proof {
                let wv = words@[i as int]@;
                self.vocab@ = self.vocab@.insert(wv);
                let ws0 = words@.subrange(0, i as int);
                let ws1 = words@.subrange(0, i as int + 1);
                assert(self.vocab@ =~= old(self).vocab@ + word_views(ws1)) by {
                    assert forall|x: Seq<char>|
                        word_views(ws1).contains(x) implies (word_views(ws0).contains(x) || x
                        == wv) by {
                        let k = choose|k: int| 0 <= k < ws1.len() && ws1[k]@ == x;
                        if k < i {
                            assert(ws0[k]@ == x);
                        }
                    }
                    assert forall|x: Seq<char>|
                        word_views(ws0).contains(x) implies word_views(ws1).contains(x) by {
                        let k = choose|k: int| 0 <= k < ws0.len() && ws0[k]@ == x;
                        assert(ws1[k]@ == x);
                    }
                    assert(ws1[i as int]@ == wv);
                }
            }
            i = i + 1;
        }
        proof {
            assert(words@.subrange(0, n as int) =~= words@);
        }
    }

    /// Every word of the vocabulary containing the query as a substring, and
    /// no other word.  The result is duplicate free, and is a function of
    /// the index and the query alone, so repeating a search repeats its
    /// result.
    pub fn search(&self, word_to_find: String) -> (r: Vec<String>)
        requires
            self.wf(),
        ensures
            word_seq_views(r@) == spec_search(self.tree, word_to_find@),
            forall|x: Seq<char>|
                #[trigger] word_list_has_spec(r@, x) <==> (self.vocab@.contains(x)
                    && is_substring(word_to_find@, x)),
            words_dup_free(r@),
    {
        let ghost b = vocab_pred(self.vocab@);
        proof {
            lemma_down_closed_vocab(self.vocab@);
            lemma_search_characterize(self.tree, Seq::<char>::empty(), b, word_to_find@);
            assert(Seq::<char>::empty() + word_to_find@ =~= word_to_find@);
        }
        let q = str_to_chars(word_to_find.as_str());
        let node = search_node(&self.tree, &q, 0, Ghost(Seq::<char>::empty()), Ghost(b));
        proof {
            assert(q@.subrange(0, q@.len() as int) =~= word_to_find@);
        }
        let mut out: Vec<String> = Vec::new();
        match node {
            None => {
                proof {
                    assert(word_seq_views(out@) =~= spec_search(self.tree, word_to_find@));
                }
            },
            Some(m) => {
                let len = m.words.len();
                let mut i: usize = 0;
                while i < len
                    invariant
                        i <= len,
                        len == m.words@.len(),
                        out@.len() == i,
                        forall|k: int| 0 <= k < i ==> out@[k] == m.words@[k],
                    decreases len - i,
                {
                    out.push(m.words[i].clone());
                    i = i + 1;
                }
                proof {
                    assert(word_seq_views(out@) =~= word_seq_views(m.words@));
                }
            },
        }
        proof {
            let r = spec_search(self.tree, word_to_find@);
            assert(word_seq_views(out@) == r);
            assert(word_seq_views(out@).len() == out@.len());
            assert forall|x: Seq<char>|
                #[trigger] word_list_has_spec(out@, x) <==> (self.vocab@.contains(x)
                    && is_substring(word_to_find@, x)) by {
                if word_list_has_spec(out@, x) {
                    let i = choose|i: int| 0 <= i < out@.len() && out@[i]@ == x;
                    assert(word_seq_views(out@)[i] == x);
                    assert(r.contains(x));
                }
                if r.contains(x) {
                    let i = choose|i: int| 0 <= i < r.len() && r[i] == x;
                    assert(word_seq_views(out@)[i] == out@[i]@);
                    assert(word_list_has_spec(out@, x));
                }
            }
            assert forall|i: int, j: int| 0 <= i < j < out@.len() implies out@[i]@ != out@[j]@ by {
                assert(word_seq_views(out@)[i] == out@[i]@);
                assert(word_seq_views(out@)[j] == out@[j]@);
            }
        }
        out
    }
}

/// Every substring of a vocabulary word finds that word: for each word `w`
/// of the vocabulary and each substring `s` of `w` (the empty string and `w`
/// itself included), a search for `s` contains `w`.
pub proof fn lemma_search_finds_substrings(gst: Gst, s: Seq<char>, w: Seq<char>)
    requires
        gst.wf(),
        gst.vocab@.contains(w),
        is_substring(s, w),
    ensures
        spec_search(gst.tree, s).contains(w),
{
    lemma_down_closed_vocab(gst.vocab@);
    lemma_search_characterize(gst.tree, Seq::<char>::empty(), vocab_pred(gst.vocab@), s);
    assert(Seq::<char>::empty() + s =~= s);
}

/// A query that occurs in no vocabulary word finds nothing.
pub proof fn lemma_search_miss_is_empty(gst: Gst, q: Seq<char>)
    requires
        gst.wf(),
        forall|w: Seq<char>| gst.vocab@.contains(w) ==> !is_substring(q, w),
    ensures
        spec_search(gst.tree, q) == Seq::<Seq<char>>::empty(),
{
    lemma_down_closed_vocab(gst.vocab@);
    lemma_search_characterize(gst.tree, Seq::<char>::empty(), vocab_pred(gst.vocab@), q);
    assert(Seq::<char>::empty() + q =~= q);
    let r = spec_search(gst.tree, q);
    if r.len() > 0 {
        assert(r.contains(r[0]));
    }
    assert(r =~= Seq::<Seq<char>>::empty());
}

/// The empty query finds exactly the whole vocabulary.
pub proof fn lemma_search_empty_query(gst: Gst)
    requires
        gst.wf(),
    ensures
        forall|x: Seq<char>|
            #[trigger] spec_search(gst.tree, Seq::<char>::empty()).contains(x)
                <==> gst.vocab@.contains(x),
{
    lemma_down_closed_vocab(gst.vocab@);
    lemma_search_characterize(
        gst.tree,
        Seq::<char>::empty(),
        vocab_pred(gst.vocab@),
        Seq::<char>::empty(),
    );
    assert(Seq::<char>::empty() + Seq::<char>::empty() =~= Seq::<char>::empty());
    assert forall|x: Seq<char>|
        #[trigger] spec_search(gst.tree, Seq::<char>::empty()).contains(x)
            <==> gst.vocab@.contains(x) by {
        lemma_empty_substring(x);
    }
}

/// Searching is idempotent: any two results of the same query on the same
/// index hold the same words in the same order.
pub proof fn lemma_search_idempotent(gst: Gst, q: Seq<char>, r1: Seq<String>, r2: Seq<String>)
    requires
        word_seq_views(r1) == spec_search(gst.tree, q),
        word_seq_views(r2) == spec_search(gst.tree, q),
    ensures
        word_seq_views(r1) == word_seq_views(r2),
{
}

/// Walk the query from `n`, one character at a time; the node reached holds
/// the answer, and a missing child means an empty answer.
fn search_node<'a>(
    n: &'a TreeNode,
    q: &Vec<char>,
    j: usize,
    Ghost(p): Ghost<Seq<char>>,
    Ghost(b): Ghost<spec_fn(Seq<char>, Seq<char>) -> bool>,
) -> (r: Option<&'a TreeNode>)
    requires
        j <= q.len(),
        subtree_inv(*n, p, b),
    ensures
        match r {
            Some(m) => word_seq_views(m.words@) == spec_search(
                *n,
                q@.subrange(j as int, q@.len() as int),
            ),
            None => spec_search(*n, q@.subrange(j as int, q@.len() as int)) == Seq::<
                Seq<char>,
            >::empty(),
        },
    decreases q.len() - j,
{
    let ghost qrest = q@.subrange(j as int, q@.len() as int);
    if j == q.len() {
        proof {
            assert(qrest.len() == 0);
        }
        Some(n)
    } else {
        let c = q[j];
        proof {
            assert(qrest[0] == c);
        }
        match find_child(&n.children, c) {
            Some(i) => {
                proof {
                    assert(node_has_child(*n, c));
                    let k = child_index(*n, c);
                    assert(0 <= k < n.children.len() && n.children[k].0 == c);
                    assert(k == i);
                    assert(child_node(*n, c) == n.children[i as int].1);
                    assert(q@.subrange(j as int + 1, q@.len() as int) =~= qrest.subrange(
                        1,
                        qrest.len() as int,
                    ));
                }
                search_node(&n.children[i].1, q, j + 1, Ghost(p.push(c)), Ghost(b))
            },
            None => {
                proof {
                    assert(!node_has_child(*n, c));
                }
                None
            },
        }
    }
}

} // verus!
