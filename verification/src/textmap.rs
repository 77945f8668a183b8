//! Maps keyed by text, in key order.

use crate::order::{
    key_before, key_lt, key_of, lemma_key_irreflexive, lemma_key_total, lemma_key_transitive,
    lemma_text_key_injective, text_key,
};
use crate::text::{chars_of, texts};
use vstd::prelude::*;

verus! {

/// Whether text `a` comes before text `b`, by code points.
pub open spec fn text_lt(a: Seq<char>, b: Seq<char>) -> bool {
    key_lt(text_key(a), text_key(b))
}

/// A map from texts to values. Entries are held in key order.
#[derive(Debug)]
pub struct TextMap<V> {
    entries: Vec<(String, V)>,
}

spec fn in_order<V>(entries: Seq<(String, V)>) -> bool {
    forall|i: int, j: int|
        0 <= i < j < entries.len() ==> text_lt(
            #[trigger] entries[i].0@,
            #[trigger] entries[j].0@,
        )
}

spec fn holds<V>(entries: Seq<(String, V)>, key: Seq<char>) -> bool {
    exists|i: int| 0 <= i < entries.len() && #[trigger] entries[i].0@ == key
}

spec fn place<V>(entries: Seq<(String, V)>, key: Seq<char>) -> int {
    choose|i: int| 0 <= i < entries.len() && #[trigger] entries[i].0@ == key
}

spec fn map_of<V>(entries: Seq<(String, V)>) -> Map<Seq<char>, V> {
    Map::new(|k: Seq<char>| holds(entries, k), |k: Seq<char>| entries[place(entries, k)].1)
}

proof fn lemma_place<V>(entries: Seq<(String, V)>, i: int)
    requires
        in_order(entries),
        0 <= i < entries.len(),
    ensures
        holds(entries, entries[i].0@),
        place(entries, entries[i].0@) == i,
        map_of(entries)[entries[i].0@] == entries[i].1,
{
    let p = place(entries, entries[i].0@);
    if p != i {
        lemma_key_irreflexive(text_key(entries[i].0@));
        assert(text_lt(entries[i].0@, entries[p].0@) || text_lt(entries[p].0@, entries[i].0@));
    }
}

impl<V> View for TextMap<V> {
    type V = Map<Seq<char>, V>;

    closed spec fn view(&self) -> Map<Seq<char>, V> {
        map_of(self.entries@)
    }
}

impl<V> TextMap<V> {
    #[verifier::type_invariant]
    spec fn well_formed(self) -> bool {
        in_order(self.entries@)
    }

    /// The map without entries.
    pub fn new() -> (r: Self)
        ensures
            r@ == Map::<Seq<char>, V>::empty(),
    {
        let r = TextMap { entries: Vec::new() };
        assert(r@ =~= Map::<Seq<char>, V>::empty());
        r
    }

    /// Where `key` stands, or where it would: everything before it has a
    /// smaller key.
    fn find(entries: &Vec<(String, V)>, key: &str) -> (r: (usize, bool))
        requires
            in_order(entries@),
        ensures
            r.0 <= entries@.len(),
            forall|i: int| 0 <= i < r.0 ==> text_lt(#[trigger] entries@[i].0@, key@),
            r.1 ==> r.0 < entries@.len() && entries@[r.0 as int].0@ == key@,
            !r.1 ==> forall|i: int|
                r.0 <= i < entries@.len() ==> text_lt(key@, #[trigger] entries@[i].0@),
            r.1 == holds(entries@, key@),
    {
        let wanted = key_of(chars_of(key).as_slice());
        let mut i: usize = 0;
        while i < entries.len()
            invariant
                i <= entries@.len(),
                in_order(entries@),
                wanted@ == text_key(key@),
                forall|k: int| 0 <= k < i ==> text_lt(#[trigger] entries@[k].0@, key@),
            decreases entries@.len() - i,
        {
            let here = key_of(chars_of(entries[i].0.as_str()).as_slice());
            if !key_before(here.as_slice(), wanted.as_slice()) {
                let after = key_before(wanted.as_slice(), here.as_slice());
                proof {
                    lemma_key_total(here@, wanted@);
                    if after {
                        assert forall|k: int| i <= k < entries@.len() implies text_lt(
                            key@,
                            #[trigger] entries@[k].0@,
                        ) by {
                            if k > i {
                                lemma_key_transitive(
                                    wanted@,
                                    here@,
                                    text_key(entries@[k].0@),
                                );
                            }
                        }
                        lemma_key_irreflexive(wanted@);
                    } else {
                        lemma_text_key_injective(entries@[i as int].0@, key@);
                    }
                }
                return (i, !after);
            }
            i += 1;
        }
        proof {
            lemma_key_irreflexive(wanted@);
        }
        (i, false)
    }

    /// The value under `key`.
    pub fn get(&self, key: &str) -> (r: Option<&V>)
        ensures
            r == (if self@.dom().contains(key@) {
                Some(&self@[key@])
            } else {
                None
            }),
    {
        proof {
            use_type_invariant(self);
        }
        let (i, found) = Self::find(&self.entries, key);
        if found {
            proof {
                lemma_place(self.entries@, i as int);
            }
            Some(&self.entries[i].1)
        } else {
            None
        }
    }

    /// Whether the map has `key`.
    pub fn contains_key(&self, key: &str) -> (r: bool)
        ensures
            r == self@.dom().contains(key@),
    {
        proof {
            use_type_invariant(self);
        }
        Self::find(&self.entries, key).1
    }

    /// Put `value` under `key`, in place of what stood there.
    pub fn insert(&mut self, key: String, value: V)
        ensures
            final(self)@ == old(self)@.insert(key@, value),
    {
        proof {
            use_type_invariant(&*self);
        }
        let mut entries: Vec<(String, V)> = Vec::new();
        std::mem::swap(&mut entries, &mut self.entries);
        let ghost before = entries@;
        let (i, found) = Self::find(&entries, key.as_str());
        if found {
            entries.remove(i);
        }
        let ghost kept = entries@;
        let ghost k = key@;
        entries.insert(i, (key, value));
        proof {
            let after = entries@;
            let shift = if found {
                0int
            } else {
                1int
            };
            assert(forall|j: int| 0 <= j < i ==> after[j] == before[j]);
            assert(forall|j: int| i < j < after.len() ==> after[j] == before[j - shift]);
            if found {
                assert forall|j: int| i < j < after.len() implies text_lt(
                    k,
                    #[trigger] after[j].0@,
                ) by {
                    assert(text_lt(before[i as int].0@, before[j].0@));
                }
            }
            assert(in_order(after));
            assert forall|q: Seq<char>| holds(after, q) == (q == k || holds(before, q)) by {
                if holds(after, q) {
                    let p = place(after, q);
                    if p < i {
                        assert(before[p].0@ == q);
                    } else if p > i {
                        assert(before[p - shift].0@ == q);
                    }
                }
                if holds(before, q) {
                    let p = place(before, q);
                    if p < i {
                        assert(after[p].0@ == q);
                    } else if found && p == i {
                        assert(q == k);
                    } else {
                        assert(after[p + shift].0@ == q);
                    }
                }
                if q == k {
                    assert(after[i as int].0@ == q);
                }
            }
            assert forall|q: Seq<char>| holds(after, q) implies map_of(after)[q] == map_of(
                before,
            ).insert(k, value)[q] by {
                let p = place(after, q);
                lemma_place(after, p);
                if p < i {
                    lemma_place(before, p);
                    lemma_key_irreflexive(text_key(k));
                } else if p > i {
                    lemma_place(before, p - shift);
                    lemma_key_irreflexive(text_key(k));
                    assert(text_lt(k, after[p].0@));
                }
            }
            assert(map_of(after) =~= map_of(before).insert(k, value));
        }
        self.entries = entries;
    }

    /// Take the value under `key` out; tells whether there was one.
    pub fn remove(&mut self, key: &str) -> (r: bool)
        ensures
            final(self)@ == old(self)@.remove(key@),
            r == old(self)@.dom().contains(key@),
    {
        proof {
            use_type_invariant(&*self);
        }
        let mut entries: Vec<(String, V)> = Vec::new();
        std::mem::swap(&mut entries, &mut self.entries);
        let ghost before = entries@;
        let (i, found) = Self::find(&entries, key);
        if found {
            entries.remove(i);
        }
        proof {
            let after = entries@;
            if found {
                assert(forall|j: int| 0 <= j < i ==> after[j] == before[j]);
                assert(forall|j: int| i <= j < after.len() ==> after[j] == before[j + 1]);
                assert(in_order(after));
                assert forall|q: Seq<char>| holds(after, q) == (q != key@ && holds(before, q)) by {
                    lemma_key_irreflexive(text_key(key@));
                    if holds(after, q) {
                        let p = place(after, q);
                        if p < i {
                            assert(before[p].0@ == q);
                        } else {
                            assert(before[p + 1].0@ == q);
                            assert(text_lt(before[i as int].0@, before[p + 1].0@));
                        }
                    }
                    if holds(before, q) && q != key@ {
                        let p = place(before, q);
                        if p < i {
                            assert(after[p].0@ == q);
                        } else {
                            assert(after[p - 1].0@ == q);
                        }
                    }
                }
                assert forall|q: Seq<char>| holds(after, q) implies map_of(after)[q] == map_of(
                    before,
                )[q] by {
                    let p = place(after, q);
                    lemma_place(after, p);
                    lemma_place(
                        before,
                        if p < i {
                            p
                        } else {
                            p + 1
                        },
                    );
                }
            }
            assert(map_of(after) =~= map_of(before).remove(key@));
        }
        self.entries = entries;
        found
    }

    /// How many entries the map has.
    pub fn len(&self) -> (r: usize)
        ensures
            self@.dom().finite(),
            r == self@.dom().len(),
    {
        proof {
            use_type_invariant(self);
            lemma_len(self.entries@);
        }
        self.entries.len()
    }

    /// The keys, in order.
    pub fn keys(&self) -> (r: Vec<String>)
        ensures
            forall|i: int, j: int|
                0 <= i < j < r@.len() ==> text_lt(#[trigger] r@[i]@, #[trigger] r@[j]@),
            forall|k: Seq<char>| #[trigger] texts(r@).contains(k) == self@.dom().contains(k),
    {
        proof {
            use_type_invariant(self);
        }
        let mut out: Vec<String> = Vec::new();
        let mut i: usize = 0;
        while i < self.entries.len()
            invariant
                i <= self.entries@.len(),
                out@.len() == i,
                forall|k: int| 0 <= k < i ==> (#[trigger] out@[k])@ == self.entries@[k].0@,
            decreases self.entries@.len() - i,
        {
            out.push(self.entries[i].0.clone());
            i += 1;
        }
        proof {
            let es = self.entries@;
            assert forall|k: Seq<char>| #[trigger] texts(out@).contains(k) == self@.dom().contains(
                k,
            ) by {
                if texts(out@).contains(k) {
                    let p = choose|p: int| 0 <= p < out@.len() && texts(out@)[p] == k;
                    assert(es[p].0@ == k);
                }
                if holds(es, k) {
                    let p = place(es, k);
                    assert(texts(out@)[p] == k);
                }
            }
        }
        out
    }
}

proof fn lemma_len<V>(entries: Seq<(String, V)>)
    requires
        in_order(entries),
    ensures
        map_of(entries).dom().finite(),
        map_of(entries).dom().len() == entries.len(),
    decreases entries.len(),
{
    let dom = map_of(entries).dom();
    if entries.len() == 0 {
        assert(dom =~= Set::<Seq<char>>::empty());
    } else {
        let before = entries.drop_last();
        let last = entries.last().0@;
        lemma_len(before);
        let prior = map_of(before).dom();
        assert forall|q: Seq<char>| dom.contains(q) == prior.insert(last).contains(q) by {
            if holds(entries, q) {
                let p = place(entries, q);
                if p < before.len() {
                    assert(before[p].0@ == q);
                }
            }
            if holds(before, q) {
                let p = place(before, q);
                assert(entries[p].0@ == q);
            }
            assert(entries[entries.len() - 1].0@ == last);
        }
        assert(dom =~= prior.insert(last));
        if prior.contains(last) {
            let p = place(before, last);
            lemma_key_irreflexive(text_key(last));
            assert(text_lt(entries[p].0@, entries[entries.len() - 1].0@));
        }
    }
}

} // verus!
