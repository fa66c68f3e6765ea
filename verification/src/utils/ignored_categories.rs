//! The categories that are left out of the totals.

use crate::text::{lines, lines_of, views};
use vstd::hash_set::StringHashSet;
use vstd::prelude::*;

verus! {

/// Represents a set of categories that should be ignored.
pub struct IgnoredCategories(StringHashSet);

impl View for IgnoredCategories {
    type V = Set<Seq<char>>;

    closed spec fn view(&self) -> Set<Seq<char>> {
        self.0@
    }
}

impl IgnoredCategories {
    /// The set of the lines of `text`: each line names one category that
    /// should be ignored.
    pub fn new(text: &str) -> (r: IgnoredCategories)
        ensures
            r@ == lines_of(text@).to_set(),
    {
        let names = lines(text);
        let mut set = StringHashSet::new();
        let n = names.len();
        let mut i: usize = 0;
        while i < n
            invariant
                n == names.len(),
                i <= n,
                set@ == views(names@).take(i as int).to_set(),
            decreases n - i,
        {
            proof {
                let seen = views(names@).take(i as int);
                let more = views(names@).take(i + 1);
                assert(more == seen.push(names@[i as int]@));
                assert(more.to_set() =~= seen.to_set().insert(names@[i as int]@)) by {
                    assert forall|x: Seq<char>| more.to_set().contains(x) == seen.to_set().insert(
                        names@[i as int]@,
                    ).contains(x) by {
                        if more.contains(x) {
                            let j = choose|j: int| 0 <= j < more.len() && more[j] == x;
                            if j < seen.len() {
                                assert(seen[j] == x);
                            }
                        }
                        if seen.contains(x) {
                            let j = choose|j: int| 0 <= j < seen.len() && seen[j] == x;
                            assert(more[j] == x);
                        }
                        if x == names@[i as int]@ {
                            assert(more[i as int] == x);
                        }
                    }
                }
            }
            set.insert(names[i].clone());
            i = i + 1;
        }
        proof {
            assert(views(names@).take(n as int) == views(names@));
        }
        IgnoredCategories(set)
    }

    /// Whether the category of that name should be ignored.
    pub fn contains(&self, key: &String) -> (r: bool)
        ensures
            r == self@.contains(key@),
    {
        self.0.contains(key.as_str())
    }
}

impl Default for IgnoredCategories {
    fn default() -> (r: IgnoredCategories)
        ensures
            r@ == Set::<Seq<char>>::empty(),
    {
        IgnoredCategories(StringHashSet::new())
    }
}

} // verus!
