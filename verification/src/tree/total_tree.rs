//! What came in and what went out, over a whole tree.

use crate::amount::{is_rounded_product, is_rounded_ratio, Amount, ONE_UNIT};
use crate::record::{record_views, Record, RecordView};
use crate::tree::{pointed, Tree};
use crate::utils::ignored_categories::IgnoredCategories;
use vstd::prelude::*;

verus! {

/// Whether an entry is left out of the totals: its category is one of those
/// to ignore. An entry without a category is never left out.
pub open spec fn ignored_entry(entry: RecordView, ignored: Set<Seq<char>>) -> bool {
    entry.category matches Some(category) && ignored.contains(category)
}

/// What an entry adds to the credits: its amount, where that is not below
/// zero and the entry is not left out.
pub open spec fn credit_of(entry: RecordView, ignored: Set<Seq<char>>) -> int {
    if !ignored_entry(entry, ignored) && entry.amount() >= 0 {
        entry.amount()
    } else {
        0
    }
}

/// What an entry adds to the debits: its amount, where that is below zero
/// and the entry is not left out.
pub open spec fn debit_of(entry: RecordView, ignored: Set<Seq<char>>) -> int {
    if !ignored_entry(entry, ignored) && entry.amount() < 0 {
        entry.amount()
    } else {
        0
    }
}

/// The sum of the amounts not below zero of the entries that are not left
/// out.
pub open spec fn credits_of(entries: Seq<RecordView>, ignored: Set<Seq<char>>) -> int
    decreases entries.len(),
{
    if entries.len() == 0 {
        0
    } else {
        credits_of(entries.drop_last(), ignored) + credit_of(entries.last(), ignored)
    }
}

/// The sum of the amounts below zero of the entries that are not left out.
pub open spec fn debits_of(entries: Seq<RecordView>, ignored: Set<Seq<char>>) -> int
    decreases entries.len(),
{
    if entries.len() == 0 {
        0
    } else {
        debits_of(entries.drop_last(), ignored) + debit_of(entries.last(), ignored)
    }
}

/// Structure to represent the total value of a `Tree`.
/// Split up to contain both the total credits and debits.
#[derive(Debug, Clone, Copy)]
pub struct TreeTotal {
    pub credits: Amount,
    pub debits: Amount,
}

impl TreeTotal {
    /// The totals before any entry was counted.
    pub open spec fn spec_default() -> TreeTotal {
        TreeTotal { credits: Amount::spec_zero(), debits: Amount::spec_zero() }
    }

    /// What [`TreeTotal::add_amount`] returns.
    pub open spec fn spec_add_amount(self, amount: Amount) -> Option<TreeTotal> {
        if amount@ >= 0 {
            match self.credits.spec_checked_add(amount) {
                Some(credits) => Some(TreeTotal { credits, debits: self.debits }),
                None => None,
            }
        } else {
            match self.debits.spec_checked_add(amount) {
                Some(debits) => Some(TreeTotal { credits: self.credits, debits }),
                None => None,
            }
        }
    }

    /// What [`TreeTotal::create_from`] returns for a tree with these
    /// entries: the amounts of the entries that are not left out, counted
    /// one after the other, as long as every sum on the way is exact.
    pub open spec fn tally(entries: Seq<Record>, ignored: Set<Seq<char>>) -> Option<TreeTotal>
        decreases entries.len(),
    {
        if entries.len() == 0 {
            Some(Self::spec_default())
        } else {
            match Self::tally(entries.drop_last(), ignored) {
                Some(before) => if ignored_entry(entries.last()@, ignored) {
                    Some(before)
                } else {
                    before.spec_add_amount(entries.last().spec_get_amount())
                },
                None => None,
            }
        }
    }

    /// What [`TreeTotal::total`] returns.
    pub open spec fn spec_total(self) -> Option<Amount> {
        self.credits.spec_checked_add(self.debits)
    }

    /// What [`TreeTotal::percentage_saved`] returns.
    pub open spec fn spec_percentage_saved(self) -> Option<Amount> {
        match self.spec_total() {
            Some(total) => match total.spec_checked_div(self.credits) {
                Some(share) => Amount::spec_hundred().spec_checked_mul(share),
                None => None,
            },
            None => None,
        }
    }

    /// Whether `percentage` is what is left of the credits, as a percentage:
    /// a hundred times a share, which is the sum of credits and debits
    /// divided by the credits, each exact or rounded to as many digits as
    /// a decimal can hold.
    pub open spec fn is_percentage_saved(self, percentage: Amount) -> bool {
        exists|share: Amount|
            is_rounded_ratio(
                self.credits@ + self.debits@,
                self.credits@,
                share@,
                #[trigger] share.spec_scale() as int,
            ) && is_rounded_product(
                100 * ONE_UNIT,
                share@,
                percentage@,
                percentage.spec_scale() as int,
            )
    }

    /// Where there is a percentage saved, the credits are not zero, and the
    /// percentage is a hundred times the total divided by the credits.
    pub proof fn lemma_percentage_saved(self)
        ensures
            self.spec_percentage_saved() matches Some(percentage) ==> self.credits@ != 0
                && self.is_percentage_saved(percentage),
    {
        match self.spec_total() {
            Some(total) => {
                Amount::lemma_checked_add(self.credits, self.debits);
                Amount::lemma_checked_div(total, self.credits);
                match total.spec_checked_div(self.credits) {
                    Some(share) => {
                        Amount::lemma_checked_mul(Amount::spec_hundred(), share);
                        Amount::lemma_hundred();
                    },
                    None => {},
                }
            },
            None => {},
        }
    }

    /// Ignore-set exclusion: where the entries of a ledger have totals, the
    /// credits are the sum of the amounts not below zero and the debits the
    /// sum of the amounts below zero, both over exactly the entries whose
    /// category is not one of those to ignore.
    pub proof fn lemma_tally(entries: Seq<Record>, ignored: Set<Seq<char>>)
        requires
            forall|i: int| 0 <= i < entries.len() ==> (#[trigger] entries[i]).valid(),
        ensures
            Self::tally(entries, ignored) matches Some(t) ==> t.credits@ == credits_of(
                record_views(entries),
                ignored,
            ) && t.debits@ == debits_of(record_views(entries), ignored),
        decreases entries.len(),
    {
        if entries.len() == 0 {
            Amount::lemma_zero();
        } else {
            let before = entries.drop_last();
            assert forall|i: int| 0 <= i < before.len() implies (#[trigger] before[i]).valid() by {
                assert(before[i] == entries[i]);
            }
            Self::lemma_tally(before, ignored);
            assert(record_views(entries).drop_last() == record_views(before));
            assert(record_views(entries).last() == entries.last()@);
            entries.last().lemma_amount();
            match Self::tally(before, ignored) {
                Some(t) => {
                    Amount::lemma_checked_add(t.credits, entries.last().spec_get_amount());
                    Amount::lemma_checked_add(t.debits, entries.last().spec_get_amount());
                },
                None => {},
            }
        }
    }

    /// The total credits: what came in.
    pub fn credits(&self) -> (r: &Amount)
        ensures
            *r == self.credits,
    {
        &self.credits
    }

    /// The total debits: what went out, below zero.
    pub fn debits(&self) -> (r: &Amount)
        ensures
            *r == self.debits,
    {
        &self.debits
    }

    /// What is left: credits and debits together. Nothing is returned where
    /// the sum is not exact.
    pub fn total(&self) -> (r: Option<Amount>)
        ensures
            r == self.spec_total(),
            r matches Some(t) ==> t@ == self.credits@ + self.debits@,
    {
        self.credits.checked_add(&self.debits)
    }

    /// What is left as a percentage of the credits: a hundred times the
    /// quotient of the total by the credits. Nothing is returned where the
    /// credits are zero, nor where the total, the quotient or the product
    /// cannot be had.
    pub fn percentage_saved(&self) -> (r: Option<Amount>)
        ensures
            r == self.spec_percentage_saved(),
            r matches Some(percentage) ==> self.is_percentage_saved(percentage),
            self.credits@ == 0 ==> r is None,
    {
        proof {
            self.lemma_percentage_saved();
        }
        match self.total() {
            Some(total) => match total.checked_div(&self.credits) {
                Some(share) => Amount::hundred().checked_mul(&share),
                None => None,
            },
            None => None,
        }
    }

    /// The totals with one more amount counted: as a credit where it is not
    /// below zero, else as a debit. Nothing is returned where the sum is not
    /// exact.
    pub fn add_amount(&self, amount: Amount) -> (r: Option<TreeTotal>)
        ensures
            r == self.spec_add_amount(amount),
    {
        if amount.is_negative() {
            match self.debits.checked_add(&amount) {
                Some(debits) => Some(TreeTotal { credits: self.credits, debits }),
                None => None,
            }
        } else {
            match self.credits.checked_add(&amount) {
                Some(credits) => Some(TreeTotal { credits, debits: self.debits }),
                None => None,
            }
        }
    }

    /// Whether the entry is left out of the totals.
    pub fn ignore_record(record: &Record, ignored_categories: &IgnoredCategories) -> (r: bool)
        ensures
            r == ignored_entry(record@, ignored_categories@),
    {
        match record.category() {
            Some(category) => ignored_categories.contains(category),
            None => false,
        }
    }

    /// The totals of a tree: every entry of the tree is counted, whatever
    /// its depth, but those whose category is one of those to ignore.
    /// Nothing is returned where a sum on the way is not exact.
    pub fn create_from(tree: &Tree, ignored_categories: &IgnoredCategories) -> (r: Option<
        TreeTotal,
    >)
        ensures
            r == Self::tally(tree.root().all_entries(), ignored_categories@),
            r matches Some(t) ==> t.credits@ == credits_of(
                tree.root().all_records(),
                ignored_categories@,
            ) && t.debits@ == debits_of(tree.root().all_records(), ignored_categories@),
    {
        let records = tree.get_root().records();
        let ghost entries = pointed(records@);
        let mut totals: Option<TreeTotal> = Some(TreeTotal::default());
        let n = records.len();
        let mut i: usize = 0;
        assert(entries.take(0) == Seq::<Record>::empty());
        while i < n
            invariant
                n == records.len(),
                entries == pointed(records@),
                i <= n,
                totals == Self::tally(entries.take(i as int), ignored_categories@),
                forall|j: int| 0 <= j < i ==> (#[trigger] entries[j]).valid(),
            decreases n - i,
        {
            let record = records[i];
            let amount = record.get_amount();
            proof {
                assert(entries.take(i + 1).drop_last() == entries.take(i as int));
                assert(entries.take(i + 1).last() == *record);
            }
            if !Self::ignore_record(record, ignored_categories) {
                totals =
                match totals {
                    Some(before) => before.add_amount(amount),
                    None => None,
                };
            }
            i = i + 1;
        }
        proof {
            assert(entries.take(n as int) == entries);
            Self::lemma_tally(entries, ignored_categories@);
        }
        totals
    }
}

impl Default for TreeTotal {
    fn default() -> (r: TreeTotal)
        ensures
            r == TreeTotal::spec_default(),
    {
        TreeTotal { credits: Amount::zero(), debits: Amount::zero() }
    }
}

} // verus!
