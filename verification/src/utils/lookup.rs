//! The dictionary that remembers the category of each description.

use crate::record::same_text;
use crate::text::{first_index, lemma_first_index_bounds, lemma_first_index_is};
use vstd::prelude::*;

verus! {

/// The category that was given to each description, in the order in which
/// the descriptions were first met.
#[derive(Debug)]
pub struct Lookup {
    entries: Vec<(String, String)>,
}

/// The descriptions of entries of a dictionary.
pub open spec fn keys_of(entries: Seq<(String, String)>) -> Seq<Seq<char>> {
    Seq::new(entries.len(), |i: int| entries[i].0@)
}

/// The dictionary that a list of pairs of a description and a category
/// stands for: each description with the category of the first pair that
/// has it.
pub open spec fn map_of(entries: Seq<(String, String)>) -> Map<Seq<char>, Seq<char>> {
    Map::new(
        |k: Seq<char>| keys_of(entries).contains(k),
        |k: Seq<char>| entries[first_index(keys_of(entries), k)].1@,
    )
}

impl View for Lookup {
    type V = Map<Seq<char>, Seq<char>>;

    open spec fn view(&self) -> Map<Seq<char>, Seq<char>> {
        map_of(self.pairs())
    }
}

impl Lookup {
    /// The pairs of a description and a category that the dictionary holds.
    pub closed spec fn pairs(self) -> Seq<(String, String)> {
        self.entries@
    }

    /// The dictionary without entries.
    pub fn new() -> (r: Lookup)
        ensures
            r@ == Map::<Seq<char>, Seq<char>>::empty(),
            r.pairs().len() == 0,
    {
        let r = Lookup { entries: Vec::new() };
        assert(r@ =~= Map::<Seq<char>, Seq<char>>::empty()) by {
            assert forall|k: Seq<char>| !keys_of(r.pairs()).contains(k) by {}
        }
        r
    }

    /// The pairs of a description and a category that the dictionary holds.
    pub fn entries(&self) -> (r: &Vec<(String, String)>)
        ensures
            r@ == self.pairs(),
    {
        &self.entries
    }

    /// The place of the description among the pairs.
    fn position(&self, description: &String) -> (r: Option<usize>)
        ensures
            match r {
                Some(i) => i == first_index(keys_of(self.pairs()), description@) && i
                    < self.pairs().len() && self.pairs()[i as int].0@ == description@,
                None => first_index(keys_of(self.pairs()), description@) == self.pairs().len()
                    && !keys_of(self.pairs()).contains(description@),
            },
    {
        let n = self.entries.len();
        let ghost keys = keys_of(self.pairs());
        let mut i: usize = 0;
        while i < n
            invariant
                n == self.pairs().len(),
                keys == keys_of(self.pairs()),
                i <= n,
                forall|j: int| 0 <= j < i ==> keys[j] != description@,
            decreases n - i,
        {
            if same_text(&self.entries[i].0, description) {
                proof {
                    assert(keys[i as int] == description@);
                    lemma_first_index_is(keys, description@, i as int);
                }
                return Some(i);
            }
            i = i + 1;
        }
        proof {
            lemma_first_index_is(keys, description@, n as int);
        }
        None
    }

    /// The category of the description, where the dictionary has one.
    pub fn get(&self, description: &String) -> (r: Option<&String>)
        ensures
            match r {
                Some(category) => self@.contains_key(description@) && self@[description@]
                    == category@,
                None => !self@.contains_key(description@),
            },
    {
        match self.position(description) {
            Some(i) => {
                assert(keys_of(self.pairs())[i as int] == description@);
                Some(&self.entries[i].1)
            },
            None => None,
        }
    }

    /// Gives the description this category, in place of the one it may have
    /// had.
    pub fn insert(&mut self, description: String, category: String)
        ensures
            final(self)@ == old(self)@.insert(description@, category@),
    {
        let ghost before = self.pairs();
        let ghost keys = keys_of(before);
        let found = self.position(&description);
        proof {
            lemma_first_index_bounds(keys, description@);
        }
        let ghost at = first_index(keys, description@);
        match found {
            Some(i) => {
                self.entries.set(i, (description, category));
            },
            None => {
                self.entries.push((description, category));
            },
        }
        proof {
            let after = self.pairs();
            let keys_after = keys_of(after);
            let target = map_of(before).insert(description@, category@);
            assert(keys_after[at] == description@);
            assert forall|j: int| 0 <= j < keys.len() implies keys_after[j] == keys[j] by {
                if j != at {
                    assert(after[j] == before[j]);
                }
            }
            assert forall|k: Seq<char>| map_of(after).dom().contains(k) == target.dom().contains(
                k,
            ) by {
                if keys.contains(k) {
                    let j = choose|j: int| 0 <= j < keys.len() && keys[j] == k;
                    assert(keys_after[j] == k);
                }
                if keys_after.contains(k) && k != description@ {
                    let j = choose|j: int| 0 <= j < keys_after.len() && keys_after[j] == k;
                    assert(keys[j] == k);
                }
            }
            assert forall|k: Seq<char>| #[trigger] map_of(after).dom().contains(k) implies map_of(
                after,
            )[k] == target[k] by {
                lemma_first_index_bounds(keys, k);
                let j = first_index(keys, k);
                if k == description@ {
                    assert forall|p: int| 0 <= p < at implies keys_after[p] != k by {
                        assert(keys_after[p] == keys[p]);
                    }
                    lemma_first_index_is(keys_after, k, at);
                } else {
                    assert(keys.contains(k)) by {
                        let p = choose|p: int| 0 <= p < keys_after.len() && keys_after[p] == k;
                        assert(keys[p] == k);
                    }
                    assert(j < keys.len()) by {
                        let p = choose|p: int| 0 <= p < keys.len() && keys[p] == k;
                        if j == keys.len() {
                            assert(keys[p] != k);
                        }
                    }
                    assert forall|p: int| 0 <= p < j implies keys_after[p] != k by {
                        assert(keys_after[p] == keys[p]);
                    }
                    assert(keys_after[j] == k);
                    lemma_first_index_is(keys_after, k, j);
                    assert(after[j] == before[j]);
                }
            }
            assert(map_of(after) =~= target);
        }
    }
}

impl Default for Lookup {
    fn default() -> (r: Lookup)
        ensures
            r@ == Map::<Seq<char>, Seq<char>>::empty(),
            r.pairs().len() == 0,
    {
        Lookup::new()
    }
}

} // verus!
