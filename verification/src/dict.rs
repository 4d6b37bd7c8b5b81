//! A string-keyed dictionary with deterministic iteration.
//!
//! Entries are kept strictly sorted by the byte-lexicographic order of
//! their keys, so a dictionary's contents determine its layout: equal
//! maps are laid out identically, lookups binary-search, and iterating
//! by index is deterministic. The view of a `Dict<V>` is the
//! mathematical map from key characters to the views of the values.

use vstd::prelude::*;

verus! {

use crate::lexord::{lex_lt, str_lex_lt, Cmp, str_cmp, lemma_lex_trichotomy,
    lemma_lex_transitive, lemma_encode_injective};
use vstd::string::StringSliceAdditionalSpecFns;

pub struct Dict<V> {
    keys: Vec<String>,
    vals: Vec<V>,
}

impl<V: View> View for Dict<V> {
    type V = Map<Seq<char>, V::V>;

    closed spec fn view(&self) -> Map<Seq<char>, V::V> {
        Map::new(
            |k: Seq<char>| self.key_seq().contains(k),
            |k: Seq<char>| self.vals@[self.spec_index_of(k)]@,
        )
    }
}

impl<V: View> Dict<V> {
    /// The keys, in iteration order.
    pub closed spec fn key_seq(&self) -> Seq<Seq<char>> {
        self.keys@.map_values(|k: String| k@)
    }

    /// The values, in iteration order.
    pub closed spec fn val_seq(&self) -> Seq<V> {
        self.vals@
    }

    /// The entries, in iteration order, with values abstracted to views.
    pub open spec fn entries(&self) -> Seq<(Seq<char>, V::V)> {
        Seq::new(self.key_seq().len(), |i: int| (self.key_seq()[i], self.val_seq()[i]@))
    }

    /// Index of key `k`, meaningful only when some entry has that key.
    pub closed spec fn spec_index_of(&self, k: Seq<char>) -> int {
        choose|i: int| 0 <= i < self.key_seq().len() && self.key_seq()[i] == k
    }

    /// Entries are strictly sorted by key, so keys are distinct and the
    /// layout is determined by the contents.
    pub open spec fn wf(&self) -> bool {
        &&& self.key_seq().len() == self.val_seq().len()
        &&& forall|i: int, j: int|
            0 <= i < j < self.key_seq().len() ==> str_lex_lt(
                #[trigger] self.key_seq()[i],
                #[trigger] self.key_seq()[j],
            )
    }

    pub proof fn lemma_index_of(&self, k: Seq<char>)
        requires
            self.wf(),
            self.key_seq().contains(k),
        ensures
            0 <= self.spec_index_of(k) < self.key_seq().len(),
            self.key_seq()[self.spec_index_of(k)] == k,
            self@.contains_key(k),
            self@[k] == self.val_seq()[self.spec_index_of(k)]@,
    {
    }

    pub proof fn lemma_view_contains(&self, k: Seq<char>)
        ensures
            self@.contains_key(k) <==> self.key_seq().contains(k),
    {
    }

    pub fn new() -> (d: Dict<V>)
        ensures
            d.wf(),
            d@ =~= Map::<Seq<char>, V::V>::empty(),
            d.key_seq() =~= Seq::<Seq<char>>::empty(),
    {
        let d = Dict { keys: Vec::new(), vals: Vec::new() };
        proof {
            assert(d.key_seq() =~= Seq::<Seq<char>>::empty());
        }
        d
    }

    pub fn len(&self) -> (n: usize)
        ensures
            n == self.key_seq().len(),
    {
        self.keys.len()
    }

    pub fn key_at(&self, i: usize) -> (k: &String)
        requires
            self.wf(),
            i < self.key_seq().len(),
        ensures
            k@ == self.key_seq()[i as int],
    {
        &self.keys[i]
    }

    pub fn val_at(&self, i: usize) -> (v: &V)
        requires
            self.wf(),
            i < self.key_seq().len(),
        ensures
            *v == self.val_seq()[i as int],
            v@ == self.entries()[i as int].1,
            self@.contains_key(self.key_seq()[i as int]),
            self@[self.key_seq()[i as int]] == v@,
    {
        proof {
            self.lemma_key_unique(i as int);
        }
        &self.vals[i]
    }

    /// Keys at distinct positions differ, so position `i` is the index
    /// of its own key.
    pub proof fn lemma_key_unique(&self, i: int)
        requires
            self.wf(),
            0 <= i < self.key_seq().len(),
        ensures
            self.spec_index_of(self.key_seq()[i]) == i,
            self@.contains_key(self.key_seq()[i]),
            self@[self.key_seq()[i]] == self.val_seq()[i]@,
    {
        let k = self.key_seq()[i];
        assert(self.key_seq().contains(k));
        let j = self.spec_index_of(k);
        if j != i {
            if i < j {
                assert(str_lex_lt(self.key_seq()[i], self.key_seq()[j]));
                lemma_lex_trichotomy(
                    vstd::utf8::encode_utf8(self.key_seq()[i]),
                    vstd::utf8::encode_utf8(self.key_seq()[j]),
                );
            } else {
                assert(str_lex_lt(self.key_seq()[j], self.key_seq()[i]));
                lemma_lex_trichotomy(
                    vstd::utf8::encode_utf8(self.key_seq()[j]),
                    vstd::utf8::encode_utf8(self.key_seq()[i]),
                );
            }
        }
    }

    /// Binary search: the position of `k`, or the position where it
    /// would be inserted.
    fn locate(&self, k: &str) -> (r: (bool, usize))
        requires
            self.wf(),
        ensures
            r.0 <==> self.key_seq().contains(k@),
            r.0 ==> r.1 == self.spec_index_of(k@) && r.1 < self.key_seq().len(),
            !r.0 ==> r.1 <= self.key_seq().len(),
            !r.0 ==> forall|i: int|
                0 <= i < r.1 ==> str_lex_lt(#[trigger] self.key_seq()[i], k@),
            !r.0 ==> forall|i: int|
                r.1 <= i < self.key_seq().len() ==> str_lex_lt(
                    k@,
                    #[trigger] self.key_seq()[i],
                ),
    {
        let mut lo: usize = 0;
        let mut hi: usize = self.keys.len();
        while lo < hi
            invariant
                self.wf(),
                0 <= lo <= hi <= self.key_seq().len(),
                forall|i: int| 0 <= i < lo ==> str_lex_lt(#[trigger] self.key_seq()[i], k@),
                forall|i: int|
                    hi <= i < self.key_seq().len() ==> str_lex_lt(
                        k@,
                        #[trigger] self.key_seq()[i],
                    ),
            decreases hi - lo,
        {
            let mid = lo + (hi - lo) / 2;
            match str_cmp(self.keys[mid].as_str(), k) {
                Cmp::Lt => {
                    proof {
                        self.lemma_below(mid as int, k@);
                    }
                    lo = mid + 1;
                }
                Cmp::Gt => {
                    proof {
                        self.lemma_above(mid as int, k@);
                    }
                    hi = mid;
                }
                Cmp::Eq => {
                    proof {
                        self.lemma_key_unique(mid as int);
                    }
                    return (true, mid);
                }
            }
        }
        proof {
            if self.key_seq().contains(k@) {
                let i = self.spec_index_of(k@);
                self.lemma_index_of(k@);
                lemma_lex_trichotomy(
                    vstd::utf8::encode_utf8(self.key_seq()[i]),
                    vstd::utf8::encode_utf8(k@),
                );
            }
        }
        (false, lo)
    }

    /// Everything at or before a position whose key is below `k` is below `k`.
    proof fn lemma_below(&self, m: int, k: Seq<char>)
        requires
            self.wf(),
            0 <= m < self.key_seq().len(),
            str_lex_lt(self.key_seq()[m], k),
        ensures
            forall|i: int| 0 <= i <= m ==> str_lex_lt(#[trigger] self.key_seq()[i], k),
    {
        assert forall|i: int| 0 <= i <= m implies str_lex_lt(#[trigger] self.key_seq()[i], k) by {
            if i < m {
                lemma_lex_transitive(
                    vstd::utf8::encode_utf8(self.key_seq()[i]),
                    vstd::utf8::encode_utf8(self.key_seq()[m]),
                    vstd::utf8::encode_utf8(k),
                );
            }
        }
    }

    /// Everything at or after a position whose key is above `k` is above `k`.
    proof fn lemma_above(&self, m: int, k: Seq<char>)
        requires
            self.wf(),
            0 <= m < self.key_seq().len(),
            str_lex_lt(k, self.key_seq()[m]),
        ensures
            forall|i: int|
                m <= i < self.key_seq().len() ==> str_lex_lt(k, #[trigger] self.key_seq()[i]),
    {
        assert forall|i: int|
            m <= i < self.key_seq().len() implies str_lex_lt(
            k,
            #[trigger] self.key_seq()[i],
        ) by {
            if m < i {
                lemma_lex_transitive(
                    vstd::utf8::encode_utf8(k),
                    vstd::utf8::encode_utf8(self.key_seq()[m]),
                    vstd::utf8::encode_utf8(self.key_seq()[i]),
                );
            }
        }
    }

    pub fn get(&self, k: &str) -> (r: Option<&V>)
        requires
            self.wf(),
        ensures
            r is Some <==> self@.contains_key(k@),
            r matches Some(v) ==> *v == self.val_seq()[self.spec_index_of(k@)]
                && v@ == self@[k@],
    {
        let (found, pos) = self.locate(k);
        if found {
            proof {
                self.lemma_index_of(k@);
            }
            Some(&self.vals[pos])
        } else {
            None
        }
    }

    pub fn contains_key(&self, k: &str) -> (r: bool)
        requires
            self.wf(),
        ensures
            r <==> self@.contains_key(k@),
    {
        let (found, _) = self.locate(k);
        found
    }

    /// Insert, overwriting any entry with the same key.
    pub fn insert(&mut self, k: String, v: V)
        requires
            old(self).wf(),
        ensures
            final(self).wf(),
            final(self)@ =~= old(self)@.insert(k@, v@),
            old(self)@.contains_key(k@) ==> final(self).key_seq() == old(self).key_seq(),
            !old(self)@.contains_key(k@) ==> final(self).key_seq().len() == old(
                self,
            ).key_seq().len() + 1 && final(self).key_seq().contains(k@),
            forall|x: int|
                0 <= x < final(self).val_seq().len() ==> (#[trigger] final(self).val_seq()[x])
                    == v || old(self).val_seq().contains(final(self).val_seq()[x]),
    {
        let (found, pos) = self.locate(&k);
        if found {
            proof {
                old(self).lemma_index_of(k@);
            }
            self.vals[pos] = v;
            proof {
                assert(self.key_seq() =~= old(self).key_seq());
                assert forall|x: int|
                    0 <= x < self.val_seq().len() implies (#[trigger] self.val_seq()[x]) == v
                    || old(self).val_seq().contains(self.val_seq()[x]) by {
                    if x != pos {
                        assert(self.val_seq()[x] == old(self).val_seq()[x]);
                        assert(old(self).val_seq().contains(old(self).val_seq()[x]));
                    }
                }
                let m2 = old(self)@.insert(k@, v@);
                assert forall|q: Seq<char>|
                    #[trigger] self@.dom().contains(q) <==> m2.dom().contains(q) by {
                    self.lemma_view_contains(q);
                    old(self).lemma_view_contains(q);
                }
                assert forall|q: Seq<char>|
                    self@.dom().contains(q) implies #[trigger] self@[q] == m2[q] by {
                    let i = self.spec_index_of(q);
                    self.lemma_index_of(q);
                    self.lemma_key_unique(i);
                    old(self).lemma_key_unique(i);
                }
                assert(self@ =~= m2);
            }
        } else {
            self.keys.insert(pos, k);
            self.vals.insert(pos, v);
            proof {
                assert(self.key_seq() =~= old(self).key_seq().insert(pos as int, k@));
                assert(self.val_seq() =~= old(self).val_seq().insert(pos as int, v));
                self.lemma_after_insert(old(self), pos as int, k@, v);
                assert forall|x: int|
                    0 <= x < self.val_seq().len() implies (#[trigger] self.val_seq()[x]) == v
                    || old(self).val_seq().contains(self.val_seq()[x]) by {
                    if x < pos {
                        assert(self.val_seq()[x] == old(self).val_seq()[x]);
                        assert(old(self).val_seq().contains(old(self).val_seq()[x]));
                    } else if x > pos {
                        assert(self.val_seq()[x] == old(self).val_seq()[x - 1]);
                        assert(old(self).val_seq().contains(old(self).val_seq()[x - 1]));
                    }
                }
            }
        }
    }

    /// After a fresh key lands at its sorted position, the dictionary is
    /// well formed and its view gained exactly that entry.
    proof fn lemma_after_insert(&self, prev: &Dict<V>, pos: int, k: Seq<char>, v: V)
        requires
            prev.wf(),
            !prev.key_seq().contains(k),
            0 <= pos <= prev.key_seq().len(),
            forall|i: int| 0 <= i < pos ==> str_lex_lt(#[trigger] prev.key_seq()[i], k),
            forall|i: int|
                pos <= i < prev.key_seq().len() ==> str_lex_lt(k, #[trigger] prev.key_seq()[i]),
            self.key_seq() == prev.key_seq().insert(pos, k),
            self.val_seq() == prev.val_seq().insert(pos, v),
        ensures
            self.wf(),
            self@ =~= prev@.insert(k, v@),
            self.key_seq().len() == prev.key_seq().len() + 1,
            self.key_seq().contains(k),
    {
        assert(self.key_seq()[pos] == k);
        assert(self.key_seq().contains(k));
        assert forall|i: int, j: int|
            0 <= i < j < self.key_seq().len() implies str_lex_lt(
            #[trigger] self.key_seq()[i],
            #[trigger] self.key_seq()[j],
        ) by {
            let a = if i < pos { prev.key_seq()[i] } else if i == pos { k } else {
                prev.key_seq()[i - 1]
            };
            assert(self.key_seq()[i] == a);
            let b = if j < pos { prev.key_seq()[j] } else if j == pos { k } else {
                prev.key_seq()[j - 1]
            };
            assert(self.key_seq()[j] == b);
            assert(str_lex_lt(a, b));
        }
        let m2 = prev@.insert(k, v@);
        assert forall|q: Seq<char>|
            #[trigger] self@.dom().contains(q) <==> m2.dom().contains(q) by {
            self.lemma_view_contains(q);
            prev.lemma_view_contains(q);
            if self.key_seq().contains(q) && q != k {
                let i = self.spec_index_of(q);
                self.lemma_index_of(q);
                if i < pos {
                    assert(prev.key_seq()[i] == q);
                } else {
                    assert(i > pos);
                    assert(prev.key_seq()[i - 1] == q);
                }
                assert(prev.key_seq().contains(q));
            }
            if prev.key_seq().contains(q) {
                let i = prev.spec_index_of(q);
                prev.lemma_index_of(q);
                if i < pos {
                    assert(self.key_seq()[i] == q);
                } else {
                    assert(self.key_seq()[i + 1] == q);
                }
                assert(self.key_seq().contains(q));
            }
        }
        assert forall|q: Seq<char>|
            self@.dom().contains(q) implies #[trigger] self@[q] == m2[q] by {
            let i = self.spec_index_of(q);
            self.lemma_index_of(q);
            self.lemma_key_unique(i);
            if q != k {
                if i < pos {
                    assert(prev.key_seq()[i] == q);
                    assert(prev.key_seq().contains(q));
                    prev.lemma_key_unique(i);
                } else {
                    assert(i > pos);
                    assert(prev.key_seq()[i - 1] == q);
                    assert(prev.key_seq().contains(q));
                    prev.lemma_key_unique(i - 1);
                }
            }
        }
        assert(self@ =~= m2);
    }
}

} // verus!
