//! The definition store: an exact-word map from a word to its ordered list
//! of (display form, definition text) senses.

use vstd::prelude::*;

use crate::tree::lemma_remove_insert;
use crate::tree::word_seq_views;

verus! {

/// The senses of one word, as (display form, definition text) views, in
/// insertion order.
pub open spec fn entry_views(l: Seq<(String, String)>) -> Seq<(Seq<char>, Seq<char>)> {
    l.map_values(|p: (String, String)| (p.0@, p.1@))
}

/// The display forms of `l`, joined with `", "`: one sense's display form
/// alone, later ones each after a separator.
pub open spec fn join_displays(l: Seq<(Seq<char>, Seq<char>)>) -> Seq<char>
    decreases l.len(),
{
    if l.len() == 0 {
        Seq::<char>::empty()
    } else if l.len() == 1 {
        l[0].0
    } else {
        join_displays(l.drop_last()) + ", "@ + l.last().0
    }
}

/// A map from a word to its ordered definition entries, keyed exactly.
pub struct Definitions {
    pub entries: Vec<(String, Vec<(String, String)>)>,
}

pub open spec fn def_keys_dup_free(es: Seq<(String, Vec<(String, String)>)>) -> bool {
    forall|i: int, j: int|
        #![trigger es[i], es[j]]
        0 <= i < j < es.len() ==> es[i].0@ != es[j].0@
}

pub open spec fn def_has_key(es: Seq<(String, Vec<(String, String)>)>, k: Seq<char>) -> bool {
    exists|i: int| 0 <= i < es.len() && es[i].0@ == k
}

pub open spec fn def_key_index(es: Seq<(String, Vec<(String, String)>)>, k: Seq<char>) -> int {
    choose|i: int| 0 <= i < es.len() && es[i].0@ == k
}

impl Definitions {
    /// Keys do not repeat, so each word's entry list is well defined.
    pub open spec fn wf(self) -> bool {
        def_keys_dup_free(self.entries@)
    }

    /// The store knows word `k`.
    pub open spec fn spec_has(self, k: Seq<char>) -> bool {
        def_has_key(self.entries@, k)
    }

    /// The (display, definition) views recorded for `k`, in insertion order.
    pub open spec fn spec_entries(self, k: Seq<char>) -> Seq<(Seq<char>, Seq<char>)> {
        entry_views(self.entries@[def_key_index(self.entries@, k)].1@)
    }

    /// The display string the store yields for `k`: the joined display
    /// forms of its senses, or the empty string for an unknown word.
    pub open spec fn spec_display_of(self, k: Seq<char>) -> Seq<char> {
        if self.spec_has(k) {
            join_displays(self.spec_entries(k))
        } else {
            Seq::<char>::empty()
        }
    }

    /// An empty store.
    pub fn new() -> (d: Definitions)
        ensures
            d.wf(),
            forall|k: Seq<char>| !d.spec_has(k),
    {
        let d = Definitions { entries: Vec::new() };
        d
    }

    /// Record one (display, definition) sense for `word`, after the word's
    /// previously recorded senses.
    pub fn add_entry(&mut self, word: String, display: String, definition: String)
        requires
            old(self).wf(),
        ensures
            final(self).wf(),
            forall|k: Seq<char>|
                #[trigger] final(self).spec_has(k) <==> (old(self).spec_has(k) || k == word@),
            final(self).spec_entries(word@) == (if old(self).spec_has(word@) {
                old(self).spec_entries(word@)
            } else {
                Seq::<(Seq<char>, Seq<char>)>::empty()
            }).push((display@, definition@)),
            forall|k: Seq<char>|
                k != word@ && #[trigger] old(self).spec_has(k) ==> final(self).spec_has(k)
                    && final(self).spec_entries(k) == old(self).spec_entries(k),
    {
        let ghost es0 = self.entries@;
        let mut i: usize = 0;
        let n = self.entries.len();
        while i < n
            invariant
                i <= n,
                n == self.entries.len(),
                self.entries@ == es0,
                es0 == old(self).entries@,
                def_keys_dup_free(es0),
                forall|m: int| 0 <= m < i ==> es0[m].0@ != word@,
            decreases n - i,
        {
            if self.entries[i].0 == word {
                let mut pair = self.entries.remove(i);
                let ghost l0 = pair.1@;
                pair.1.push((display, definition));
                proof {
                    assert(entry_views(pair.1@) =~= entry_views(l0).push((display@, definition@)));
                }
                self.entries.insert(i, pair);
                proof {
                    lemma_remove_insert(es0, i as int, pair);
                    assert(self.entries@ =~= es0.update(i as int, pair));
                    assert(forall|m: int|
                        0 <= m < self.entries@.len() ==> self.entries@[m].0@ == es0[m].0@);
                    assert(def_key_index(es0, word@) == i) by {
                        assert(es0[i as int].0@ == word@);
                        assert(def_has_key(es0, word@));
                        let j = def_key_index(es0, word@);
                        assert(es0[j].0@ == word@);
                        if j < i {
                            assert(es0[j].0@ != es0[i as int].0@);
                        } else if j > i {
                            assert(es0[i as int].0@ != es0[j].0@);
                        }
                    }
                    assert(def_key_index(self.entries@, word@) == i) by {
                        assert(self.entries@[i as int].0@ == word@);
                        assert(def_has_key(self.entries@, word@));
                        let j = def_key_index(self.entries@, word@);
                        assert(self.entries@[j].0@ == word@);
                        assert(es0[j].0@ == word@);
                        if j < i {
                            assert(es0[j].0@ != es0[i as int].0@);
                        } else if j > i {
                            assert(es0[i as int].0@ != es0[j].0@);
                        }
                    }
                    assert forall|k: Seq<char>|
                        k != word@ && #[trigger] def_has_key(es0, k) implies def_has_key(
                        self.entries@,
                        k,
                    ) && final(self).spec_entries(k) == old(self).spec_entries(k) by {
                        let j = choose|j: int| 0 <= j < es0.len() && es0[j].0@ == k;
                        assert(j != i);
                        assert(self.entries@[j].0@ == k);
                        let j0 = def_key_index(es0, k);
                        let j1 = def_key_index(self.entries@, k);
                        assert(es0[j0].0@ == k);
                        assert(self.entries@[j1].0@ == k);
                        assert(j0 == j1) by {
                            if j1 != i {
                                assert(es0[j1].0@ == k);
                            }
                            assert(j1 != i);
                        }
                        assert(j1 != i);
                    }
                    assert forall|k: Seq<char>|
                        #[trigger] def_has_key(self.entries@, k) implies (def_has_key(es0, k) || k
                        == word@) by {
                        let j = choose|j: int|
                            0 <= j < self.entries@.len() && self.entries@[j].0@ == k;
                        if j != i {
                            assert(es0[j].0@ == k);
                        }
                    }
                }
                return ;
            }
            i = i + 1;
        }
        let mut senses: Vec<(String, String)> = Vec::new();
        senses.push((display, definition));
        proof {
            assert(entry_views(senses@) =~= Seq::<(Seq<char>, Seq<char>)>::empty().push(
                (display@, definition@),
            ));
        }
        self.entries.push((word, senses));
        proof {
            let es1 = self.entries@;
            assert(es1[n as int].0@ == word@);
            assert(!def_has_key(es0, word@));
            assert forall|k: Seq<char>|
                #[trigger] def_has_key(es1, k) implies (def_has_key(es0, k) || k == word@) by {
                let j = choose|j: int| 0 <= j < es1.len() && es1[j].0@ == k;
                if j < n {
                    assert(es0[j].0@ == k);
                }
            }
            assert forall|k: Seq<char>| #[trigger] def_has_key(es0, k) implies def_has_key(
                es1,
                k,
            ) by {
                let j = choose|j: int| 0 <= j < es0.len() && es0[j].0@ == k;
                assert(es1[j].0@ == k);
            }
            assert(def_key_index(es1, word@) == n) by {
                let j = def_key_index(es1, word@);
                assert(def_has_key(es1, word@));
                assert(es1[j].0@ == word@);
                if j < n {
                    assert(es0[j].0@ == word@);
                }
            }
            assert forall|k: Seq<char>|
                k != word@ && #[trigger] def_has_key(es0, k) implies final(self).spec_entries(k)
                == old(self).spec_entries(k) by {
                let j0 = def_key_index(es0, k);
                let j1 = def_key_index(es1, k);
                assert(es0[j0].0@ == k);
                assert(def_has_key(es1, k));
                assert(es1[j1].0@ == k);
                assert(j1 != n);
                assert(es0[j1].0@ == k);
                assert(j0 == j1);
            }
        }
    }

    /// The display string of `word`: the display forms of all its senses in
    /// order, joined with a comma.  A word with no recorded sense displays
    /// as the empty string rather than failing.
    pub fn display_string(&self, word: &String) -> (r: String)
        requires
            self.wf(),
        ensures
            r@ == self.spec_display_of(word@),
    {
        let n = self.entries.len();
        let mut i: usize = 0;
        while i < n
            invariant
                i <= n,
                n == self.entries.len(),
                self.wf(),
                forall|m: int| 0 <= m < i ==> self.entries@[m].0@ != word@,
            decreases n - i,
        {
            if self.entries[i].0 == *word {
                proof {
                    assert(self.entries@[i as int].0@ == word@);
                    assert(def_has_key(self.entries@, word@));
                    assert(def_key_index(self.entries@, word@) == i) by {
                        let j = def_key_index(self.entries@, word@);
                        assert(self.entries@[j].0@ == word@);
                        if j < i {
                            assert(false);
                        } else if j > i {
                            assert(self.entries@[i as int].0@ != self.entries@[j].0@);
                        }
                    }
                }
                let senses = &self.entries[i].1;
                let ghost ev = entry_views(senses@);
                let mut out = String::new();
                let m = senses.len();
                let mut j: usize = 0;
                proof {
                    assert(ev.subrange(0, 0) =~= Seq::<(Seq<char>, Seq<char>)>::empty());
                }
                while j < m
                    invariant
                        j <= m,
                        m == senses.len(),
                        ev == entry_views(senses@),
                        out@ == join_displays(ev.subrange(0, j as int)),
                    decreases m - j,
                {
                    if j > 0 {
                        out.append(", ");
                    }
                    out.append(senses[j].0.as_str());
                    proof {
                        let pre = ev.subrange(0, j as int);
                        let cur = ev.subrange(0, j as int + 1);
                        assert(cur.drop_last() =~= pre);
                        assert(cur.last() == ev[j as int]);
                        assert(ev[j as int].0 == senses@[j as int].0@);
                        if j == 0 {
                            assert(join_displays(cur) == cur[0].0);
                            assert(Seq::<char>::empty() + senses@[0].0@ =~= senses@[0].0@);
                        }
                    }
                    j = j + 1;
                }
                proof {
                    assert(ev.subrange(0, m as int) =~= ev);
                }
                return out;
            }
            i = i + 1;
        }
        proof {
            assert(!self.spec_has(word@));
        }
        String::new()
    }

    /// Every definition text recorded for `word`, in order, or the explicit
    /// miss when the word is absent.
    pub fn define(&self, word: &String) -> (r: Option<Vec<String>>)
        requires
            self.wf(),
        ensures
            match r {
                None => !self.spec_has(word@),
                Some(defs) => self.spec_has(word@) && word_seq_views(defs@)
                    == self.spec_entries(word@).map_values(
                    |p: (Seq<char>, Seq<char>)| p.1,
                ),
            },
    {
        let n = self.entries.len();
        let mut i: usize = 0;
        while i < n
            invariant
                i <= n,
                n == self.entries.len(),
                self.wf(),
                forall|m: int| 0 <= m < i ==> self.entries@[m].0@ != word@,
            decreases n - i,
        {
            if self.entries[i].0 == *word {
                proof {
                    assert(self.entries@[i as int].0@ == word@);
                    assert(def_has_key(self.entries@, word@));
                    assert(def_key_index(self.entries@, word@) == i) by {
                        let j = def_key_index(self.entries@, word@);
                        assert(self.entries@[j].0@ == word@);
                        if j != i {
                            assert(false);
                        }
                    }
                }
                let senses = &self.entries[i].1;
                let mut out: Vec<String> = Vec::new();
                let m = senses.len();
                let mut j: usize = 0;
                while j < m
                    invariant
                        j <= m,
                        m == senses.len(),
                        out@.len() == j,
                        forall|k: int| 0 <= k < j ==> out@[k] == senses@[k].1,
                    decreases m - j,
                {
                    out.push(senses[j].1.clone());
                    j = j + 1;
                }
                proof {
                    assert(word_seq_views(out@) =~= entry_views(senses@).map_values(
                        |p: (Seq<char>, Seq<char>)| p.1,
                    ));
                }
                return Some(out);
            }
            i = i + 1;
        }
        None
    }
}

} // verus!
