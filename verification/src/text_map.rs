//! A map from texts to values that keeps its keys in descending order.

use vstd::prelude::*;
use crate::text::{
    is_text_less, law_text_less_strict, law_text_less_total, law_text_less_transitive, same_text,
    text_less,
};

verus! {

/// Values by text. The items stand in descending order of their keys, each key once.
#[verifier::reject_recursive_types(V)]
pub struct TextMap<V> {
    items: Vec<(String, V)>,
}

impl<V> View for TextMap<V> {
    type V = Map<Seq<char>, V>;

    closed spec fn view(&self) -> Map<Seq<char>, V> {
        contents(self.items@)
    }
}

/// The map that a run of keys and values makes, a later value taking the place of an earlier one.
pub open spec fn contents<V>(items: Seq<(String, V)>) -> Map<Seq<char>, V>
    decreases items.len(),
{
    if items.len() == 0 {
        Map::empty()
    } else {
        contents(items.drop_last()).insert(items.last().0@, items.last().1)
    }
}

/// Each key comes behind those that are greater, and only once.
pub open spec fn descending<V>(items: Seq<(String, V)>) -> bool {
    forall|i: int, j: int|
        0 <= i < j < items.len() ==> text_less((#[trigger] items[j]).0@, (#[trigger] items[i]).0@)
}

proof fn lemma_contents_dom<V>(items: Seq<(String, V)>, key: Seq<char>)
    ensures
        contents(items).contains_key(key) <==> exists|i: int|
            0 <= i < items.len() && (#[trigger] items[i]).0@ == key,
    decreases items.len(),
{
    if items.len() > 0 {
        let front = items.drop_last();
        lemma_contents_dom(front, key);
        if exists|i: int| 0 <= i < items.len() && (#[trigger] items[i]).0@ == key {
            let i = choose|i: int| 0 <= i < items.len() && (#[trigger] items[i]).0@ == key;
            if i < front.len() {
                assert(front[i].0@ == key);
            }
        }
        if exists|i: int| 0 <= i < front.len() && (#[trigger] front[i]).0@ == key {
            let i = choose|i: int| 0 <= i < front.len() && (#[trigger] front[i]).0@ == key;
            assert(items[i].0@ == key);
        }
        assert(items[items.len() - 1] == items.last());
    }
}

proof fn lemma_contents_at<V>(items: Seq<(String, V)>, i: int)
    requires
        descending(items),
        0 <= i < items.len(),
    ensures
        contents(items).contains_key(items[i].0@),
        contents(items)[items[i].0@] == items[i].1,
    decreases items.len(),
{
    let front = items.drop_last();
    if i < front.len() {
        assert(descending(front));
        lemma_contents_at(front, i);
        assert(front[i] == items[i]);
        law_text_less_strict(items[items.len() - 1].0@, items[i].0@);
    }
}

/// The map does not depend on the order of items whose keys differ: it is settled by what each
/// index holds.
pub proof fn lemma_contents_same<V>(a: Seq<(String, V)>, m: Map<Seq<char>, V>)
    requires
        descending(a),
        forall|i: int|
            0 <= i < a.len() ==> m.contains_key((#[trigger] a[i]).0@) && m[a[i].0@] == a[i].1,
        forall|k: Seq<char>| #[trigger]
            m.contains_key(k) ==> exists|i: int| 0 <= i < a.len() && (#[trigger] a[i]).0@ == k,
    ensures
        contents(a) == m,
{
    assert forall|k: Seq<char>| contents(a).contains_key(k) <==> m.contains_key(k) by {
        lemma_contents_dom(a, k);
        if exists|i: int| 0 <= i < a.len() && (#[trigger] a[i]).0@ == k {
            let i = choose|i: int| 0 <= i < a.len() && (#[trigger] a[i]).0@ == k;
            assert(m.contains_key(a[i].0@));
        }
    }
    assert forall|k: Seq<char>| contents(a).contains_key(k) implies contents(a)[k] == m[k] by {
        lemma_contents_dom(a, k);
        let i = choose|i: int| 0 <= i < a.len() && (#[trigger] a[i]).0@ == k;
        lemma_contents_at(a, i);
        assert(m[a[i].0@] == a[i].1);
    }
    assert(contents(a) =~= m);
}

impl<V> TextMap<V> {
    /// Keys are in descending order.
    pub closed spec fn wf(self) -> bool {
        descending(self.items@)
    }

    /// The items, in descending order of their keys.
    pub closed spec fn spec_items(self) -> Seq<(String, V)> {
        self.items@
    }

    /// What `spec_items` holds is the map.
    pub broadcast proof fn lemma_items(self)
        requires
            self.wf(),
        ensures
            descending(#[trigger] self.spec_items()),
            contents(self.spec_items()) == self@,
    {
    }

    /// Each item is in the map, under its key.
    pub proof fn lemma_item(self, i: int)
        requires
            self.wf(),
            0 <= i < self.spec_items().len(),
        ensures
            self@.contains_key(self.spec_items()[i].0@),
            self@[self.spec_items()[i].0@] == self.spec_items()[i].1,
    {
        lemma_contents_at(self.items@, i);
    }

    /// The keys of the map are those of the items.
    pub proof fn lemma_key(self, key: Seq<char>)
        ensures
            self@.contains_key(key) <==> exists|i: int|
                0 <= i < self.spec_items().len() && (#[trigger] self.spec_items()[i]).0@ == key,
    {
        assert(self.spec_items() == self.items@);
        lemma_contents_dom(self.spec_items(), key);
    }

    /// A map that holds nothing.
    pub fn new() -> (r: TextMap<V>)
        ensures
            r.wf(),
            r@ == Map::<Seq<char>, V>::empty(),
    {
        TextMap { items: Vec::new() }
    }

    /// How many keys the map has.
    pub fn len(&self) -> (r: usize)
        ensures
            r == self.spec_items().len(),
    {
        self.items.len()
    }

    /// The item at `i`, counted from the greatest key.
    pub fn item(&self, i: usize) -> (r: &(String, V))
        requires
            i < self.spec_items().len(),
        ensures
            *r == self.spec_items()[i as int],
    {
        &self.items[i]
    }

    /// The value at `key`.
    pub fn get(&self, key: &str) -> (r: Option<&V>)
        requires
            self.wf(),
        ensures
            match r {
                Some(v) => self@.contains_key(key@) && *v == self@[key@],
                None => !self@.contains_key(key@),
            },
    {
        let mut i: usize = 0;
        while i < self.items.len()
            invariant
                i <= self.items.len(),
                self.wf(),
                forall|j: int| 0 <= j < i ==> (#[trigger] self.items@[j]).0@ != key@,
            decreases self.items.len() - i,
        {
            if same_text(self.items[i].0.as_str(), key) {
                proof {
                    lemma_contents_at(self.items@, i as int);
                }
                return Some(&self.items[i].1);
            }
            i += 1;
        }
        proof {
            lemma_contents_dom(self.items@, key@);
        }
        None
    }

    /// Puts `value` at `key`, in place of what was there.
    pub fn insert(&mut self, key: String, value: V)
        requires
            old(self).wf(),
        ensures
            final(self).wf(),
            final(self)@ == old(self)@.insert(key@, value),
    {
        let ghost before = self.items@;
        let mut i: usize = 0;
        while i < self.items.len() && is_text_less(key.as_str(), self.items[i].0.as_str())
            invariant
                i <= self.items.len(),
                self.items@ == before,
                descending(before),
                forall|j: int| 0 <= j < i ==> text_less(key@, (#[trigger] before[j]).0@),
            decreases self.items.len() - i,
        {
            i += 1;
        }
        let ghost m = contents(before).insert(key@, value);
        if i < self.items.len() && same_text(key.as_str(), self.items[i].0.as_str()) {
            let _ = self.items.remove(i);
            self.items.insert(i, (key, value));
        } else {
            proof {
                if i < before.len() {
                    law_text_less_total(key@, before[i as int].0@);
                }
            }
            self.items.insert(i, (key, value));
        }
        proof {
            let after = self.items@;
            let p = i as int;
            let same = after.len() == before.len();
            assert(after[p].0@ == key@ && after[p].1 == value);
            assert forall|j: int| 0 <= j < p implies after[j] == before[j] by {}
            assert forall|j: int| p < j < after.len() implies #[trigger] after[j] == before[if same {
                j
            } else {
                j - 1
            }] && text_less(after[j].0@, key@) by {
                if same {
                    assert(text_less(before[j].0@, before[p].0@));
                } else if j - 1 > p {
                    law_text_less_transitive(before[j - 1].0@, before[p].0@, key@);
                }
            }
            assert(descending(after));
            assert forall|j: int| 0 <= j < after.len() implies m.contains_key((#[trigger] after[j]).0@)
                && m[after[j].0@] == after[j].1 by {
                if j < p {
                    lemma_contents_at(before, j);
                    law_text_less_strict(key@, before[j].0@);
                } else if j > p {
                    lemma_contents_at(before, if same { j } else { j - 1 });
                    law_text_less_strict(after[j].0@, key@);
                }
            }
            assert forall|k: Seq<char>| #[trigger] m.contains_key(k) implies exists|j: int|
                0 <= j < after.len() && (#[trigger] after[j]).0@ == k by {
                if k == key@ {
                    assert(after[p].0@ == k);
                } else {
                    lemma_contents_dom(before, k);
                    let j = choose|j: int| 0 <= j < before.len() && (#[trigger] before[j]).0@ == k;
                    if j < p {
                        assert(after[j].0@ == k);
                    } else if same {
                        assert(after[j].0@ == k);
                    } else {
                        assert(after[j + 1].0@ == k);
                    }
                }
            }
            lemma_contents_same(after, m);
        }
    }

    /// Takes the item at `i` out.
    pub fn remove_item(&mut self, i: usize) -> (r: (String, V))
        requires
            old(self).wf(),
            i < old(self).spec_items().len(),
        ensures
            final(self).wf(),
            r == old(self).spec_items()[i as int],
            final(self).spec_items() == old(self).spec_items().remove(i as int),
            final(self)@ == old(self)@.remove(r.0@),
    {
        let ghost before = self.items@;
        let r: (String, V) = self.items.remove(i);
        proof {
            let after = self.items@;
            let p = i as int;
            let m = contents(before).remove(r.0@);
            assert forall|j: int| 0 <= j < after.len() implies #[trigger] after[j] == before[if j < p {
                j
            } else {
                j + 1
            }] by {}
            assert(descending(after));
            assert forall|j: int| 0 <= j < after.len() implies m.contains_key((#[trigger] after[j]).0@)
                && m[after[j].0@] == after[j].1 by {
                let b = if j < p {
                    j
                } else {
                    j + 1
                };
                lemma_contents_at(before, b);
                if b < p {
                    law_text_less_strict(before[p].0@, before[b].0@);
                } else {
                    law_text_less_strict(before[b].0@, before[p].0@);
                }
            }
            assert forall|k: Seq<char>| #[trigger] m.contains_key(k) implies exists|j: int|
                0 <= j < after.len() && (#[trigger] after[j]).0@ == k by {
                lemma_contents_dom(before, k);
                let j = choose|j: int| 0 <= j < before.len() && (#[trigger] before[j]).0@ == k;
                assert(j != p);
                if j < p {
                    assert(after[j].0@ == k);
                } else {
                    assert(after[j - 1].0@ == k);
                }
            }
            lemma_contents_same(after, m);
        }
        r
    }
}

/// Of several values at a key the last one counts; a key that no item has is missing.
pub proof fn law_last_value_counts<V>(items: Seq<(String, V)>, i: int, key: Seq<char>)
    requires
        -1 <= i < items.len(),
        i >= 0 ==> items[i].0@ == key,
        forall|j: int| i < j < items.len() ==> (#[trigger] items[j]).0@ != key,
    ensures
        i >= 0 ==> contents(items).contains_key(key) && contents(items)[key] == items[i].1,
        i < 0 ==> !contents(items).contains_key(key),
    decreases items.len(),
{
    if items.len() > 0 && i < items.len() - 1 {
        let front = items.drop_last();
        assert forall|j: int| i < j < front.len() implies (#[trigger] front[j]).0@ != key by {
            assert(items[j].0@ != key);
        }
        law_last_value_counts(front, i, key);
        assert(items[items.len() - 1].0@ != key);
    }
}

} // verus!
