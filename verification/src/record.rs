//! Ledger entries.

use crate::amount::{option_value, same_option, total_value, Amount};
use crate::text::{split, split_on, views};
use vstd::prelude::*;
use vstd::seq_lib::{to_multiset_build, to_multiset_contains};

verus! {

/// What a [`Record`] holds, as mathematical values: text as sequences of
/// characters, amounts counted in units of 10^-28.
pub struct RecordView {
    pub date: Seq<char>,
    pub description: Seq<char>,
    pub debit_amount: Option<int>,
    pub credit_amount: Option<int>,
    pub category: Option<Seq<char>>,
}

/// The segments of a category: the pieces between its slashes. The empty
/// category has no segment.
pub open spec fn category_path(category: Seq<char>) -> Seq<Seq<char>> {
    if category.len() == 0 {
        Seq::empty()
    } else {
        split_on(category, '/')
    }
}

impl RecordView {
    /// The amount of the entry: a debit counts below zero, a credit above,
    /// and an entry with neither is worth nothing.
    pub open spec fn amount(self) -> int {
        match self.debit_amount {
            Some(debit) => -debit,
            None => match self.credit_amount {
                Some(credit) => credit,
                None => 0,
            },
        }
    }

    /// The category as text: empty where the entry has none.
    pub open spec fn category_text(self) -> Seq<char> {
        match self.category {
            Some(category) => category,
            None => Seq::empty(),
        }
    }

    /// The place of the entry in a category tree.
    pub open spec fn path(self) -> Seq<Seq<char>> {
        category_path(self.category_text())
    }
}

/// The amounts of a sequence of entries.
pub open spec fn amounts_of(records: Seq<RecordView>) -> Seq<int> {
    Seq::new(records.len(), |i: int| records[i].amount())
}

/// The sum of the amounts of a sequence of entries.
pub open spec fn sum_amounts(records: Seq<RecordView>) -> int {
    total_value(amounts_of(records))
}

/// The views of a sequence of entries.
pub open spec fn record_views(records: Seq<Record>) -> Seq<RecordView> {
    Seq::new(records.len(), |i: int| records[i]@)
}

/// How often an entry equal to `record` occurs among `records`.
pub fn count_in(records: &Vec<Record>, record: &Record) -> (r: usize)
    ensures
        r == record_views(records@).to_multiset().count(record@),
{
    let n = records.len();
    let mut count: usize = 0;
    let mut i: usize = 0;
    let ghost all = record_views(records@);
    proof {
        assert(all.take(0) == Seq::<RecordView>::empty());
        all.take(0).to_multiset_ensures();
    }
    while i < n
        invariant
            n == records.len(),
            all == record_views(records@),
            i <= n,
            count <= i,
            count == all.take(i as int).to_multiset().count(record@),
        decreases n - i,
    {
        proof {
            assert(all.take(i + 1) == all.take(i as int).push(all[i as int]));
            to_multiset_build(all.take(i as int), all[i as int]);
        }
        if records[i] == *record {
            count = count + 1;
        }
        i = i + 1;
    }
    proof {
        assert(all.take(n as int) == all);
    }
    count
}

/// Whether two lists hold the same entries, each as often in the one as in
/// the other, in whatever order.
pub fn same_entries(a: &Vec<Record>, b: &Vec<Record>) -> (r: bool)
    ensures
        r == (record_views(a@).to_multiset() == record_views(b@).to_multiset()),
{
    let ghost left = record_views(a@);
    let ghost right = record_views(b@);
    let mut i: usize = 0;
    while i < a.len()
        invariant
            i <= a.len(),
            left == record_views(a@),
            right == record_views(b@),
            forall|k: int|
                0 <= k < i ==> left.to_multiset().count(#[trigger] left[k])
                    == right.to_multiset().count(left[k]),
        decreases a.len() - i,
    {
        if count_in(a, &a[i]) != count_in(b, &a[i]) {
            return false;
        }
        i = i + 1;
    }
    let mut j: usize = 0;
    while j < b.len()
        invariant
            j <= b.len(),
            left == record_views(a@),
            right == record_views(b@),
            forall|k: int|
                0 <= k < left.len() ==> left.to_multiset().count(#[trigger] left[k])
                    == right.to_multiset().count(left[k]),
            forall|k: int|
                0 <= k < j ==> left.to_multiset().count(#[trigger] right[k])
                    == right.to_multiset().count(right[k]),
        decreases b.len() - j,
    {
        if count_in(a, &b[j]) != count_in(b, &b[j]) {
            return false;
        }
        j = j + 1;
    }
    proof {
        assert forall|v: RecordView| left.to_multiset().count(v) == right.to_multiset().count(
            v,
        ) by {
            to_multiset_contains(left, v);
            to_multiset_contains(right, v);
            if left.contains(v) {
                let k = choose|k: int| 0 <= k < left.len() && left[k] == v;
                assert(left.to_multiset().count(left[k]) == right.to_multiset().count(left[k]));
            } else if right.contains(v) {
                let k = choose|k: int| 0 <= k < right.len() && right[k] == v;
                assert(left.to_multiset().count(right[k]) == right.to_multiset().count(
                    right[k],
                ));
            }
        }
        assert(left.to_multiset() =~= right.to_multiset());
    }
    true
}

/// The view of a text that may be absent.
pub open spec fn option_text(text: Option<String>) -> Option<Seq<char>> {
    match text {
        Some(t) => Some(t@),
        None => None,
    }
}

/// Whether two texts hold the same characters.
pub fn same_text(a: &String, b: &String) -> (r: bool)
    ensures
        r == (a@ == b@),
{
    *a == *b
}

/// One entry of the ledger.
#[derive(Debug)]
pub struct Record {
    date: String,
    description: String,
    debit_amount: Option<Amount>,
    credit_amount: Option<Amount>,
    category: Option<String>,
}

impl View for Record {
    type V = RecordView;

    closed spec fn view(&self) -> RecordView {
        RecordView {
            date: self.date@,
            description: self.description@,
            debit_amount: option_value(self.debit_amount),
            credit_amount: option_value(self.credit_amount),
            category: option_text(self.category),
        }
    }
}

impl Record {
    /// An entry of these parts.
    pub fn new(
        date: String,
        description: String,
        debit_amount: Option<Amount>,
        credit_amount: Option<Amount>,
        category: Option<String>,
    ) -> (r: Record)
        ensures
            r@ == (RecordView {
                date: date@,
                description: description@,
                debit_amount: option_value(debit_amount),
                credit_amount: option_value(credit_amount),
                category: option_text(category),
            }),
    {
        Record { date, description, debit_amount, credit_amount, category }
    }

    /// The date of the entry, as it stands in the statement.
    pub fn date(&self) -> (r: &String)
        ensures
            r@ == self@.date,
    {
        &self.date
    }

    /// What the statement says of the entry.
    pub fn description(&self) -> (r: &String)
        ensures
            r@ == self@.description,
    {
        &self.description
    }

    /// What went out, where something did.
    pub fn debit_amount(&self) -> (r: &Option<Amount>)
        ensures
            option_value(*r) == self@.debit_amount,
    {
        &self.debit_amount
    }

    /// What came in, where something did.
    pub fn credit_amount(&self) -> (r: &Option<Amount>)
        ensures
            option_value(*r) == self@.credit_amount,
    {
        &self.credit_amount
    }

    /// The category of the entry, where it has one: the names of the
    /// categories from the top down, with slashes between them.
    pub fn category(&self) -> (r: &Option<String>)
        ensures
            option_text(*r) == self@.category,
    {
        &self.category
    }

    /// What [`Record::get_amount`] returns.
    pub closed spec fn spec_get_amount(self) -> Amount {
        match self.debit_amount {
            Some(debit) => debit.spec_neg(),
            None => match self.credit_amount {
                Some(credit) => credit,
                None => Amount::spec_zero(),
            },
        }
    }

    /// Whether the amounts of the entry are within their limits. Every entry
    /// that executable code can hold is valid.
    pub closed spec fn valid(self) -> bool {
        &&& self.debit_amount matches Some(debit) ==> debit.valid()
        &&& self.credit_amount matches Some(credit) ==> credit.valid()
    }

    /// The amount of a valid entry is within its limits and has the value
    /// that the entry's view gives.
    pub proof fn lemma_amount(self)
        requires
            self.valid(),
        ensures
            self.spec_get_amount().valid(),
            self.spec_get_amount()@ == self@.amount(),
    {
        match self.debit_amount {
            Some(debit) => {
                Amount::lemma_neg(debit);
            },
            None => {
                Amount::lemma_zero();
            },
        }
    }

    /// The amount of the entry: the debit with its sign turned where there
    /// is one, else the credit, else zero.
    pub fn get_amount(&self) -> (r: Amount)
        ensures
            r == self.spec_get_amount(),
            r@ == self@.amount(),
            self.valid(),
    {
        proof {
            match &self.debit_amount {
                Some(debit) => {
                    use_type_invariant(debit);
                },
                None => {},
            }
            match &self.credit_amount {
                Some(credit) => {
                    use_type_invariant(credit);
                },
                None => {},
            }
        }
        match &self.debit_amount {
            Some(debit) => debit.neg(),
            None => match &self.credit_amount {
                Some(credit) => *credit,
                None => Amount::zero(),
            },
        }
    }

    /// Gives the entry this category.
    pub fn set_category(&mut self, category: String)
        ensures
            final(self)@ == (RecordView { category: Some(category@), ..old(self)@ }),
    {
        self.category = Some(category);
    }

    /// The segments of the entry's category, from the root of a category
    /// tree down.
    pub fn path(&self) -> (r: Vec<String>)
        ensures
            views(r@) == self@.path(),
    {
        match &self.category {
            Some(category) => {
                if category.as_str().unicode_len() == 0 {
                    let r: Vec<String> = Vec::new();
                    assert(views(r@) == Seq::<Seq<char>>::empty());
                    r
                } else {
                    split(category.as_str(), '/')
                }
            },
            None => {
                let r: Vec<String> = Vec::new();
                assert(views(r@) == Seq::<Seq<char>>::empty());
                r
            },
        }
    }
}

impl Clone for Record {
    fn clone(&self) -> (r: Record)
        ensures
            r@ == self@,
    {
        Record {
            date: self.date.clone(),
            description: self.description.clone(),
            debit_amount: self.debit_amount,
            credit_amount: self.credit_amount,
            category: match &self.category {
                Some(category) => Some(category.clone()),
                None => None,
            },
        }
    }
}

/// Two entries are equal where they hold the same texts and the same
/// numbers.
impl PartialEq for Record {
    fn eq(&self, other: &Record) -> (r: bool) {
        let same_category = match (&self.category, &other.category) {
            (Some(a), Some(b)) => same_text(a, b),
            (None, None) => true,
            _ => false,
        };
        assert(same_category == (self@.category == other@.category));
        let same_date = same_text(&self.date, &other.date);
        let same_description = same_text(&self.description, &other.description);
        let same_debit = same_option(&self.debit_amount, &other.debit_amount);
        let same_credit = same_option(&self.credit_amount, &other.credit_amount);
        same_date && same_description && same_debit && same_credit && same_category
    }
}

impl vstd::std_specs::cmp::PartialEqSpecImpl for Record {
    open spec fn obeys_eq_spec() -> bool {
        true
    }

    open spec fn eq_spec(&self, other: &Record) -> bool {
        self@ == other@
    }
}

/// An entry of a credit card statement.
#[derive(Debug)]
pub struct CreditRecord {
    date: String,
    description: String,
    amount: Amount,
}

impl CreditRecord {
    /// An entry of these parts.
    pub fn new(date: String, description: String, amount: Amount) -> (r: CreditRecord)
        ensures
            r.spec_date() == date@,
            r.spec_description() == description@,
            r.spec_amount() == amount@,
    {
        CreditRecord { date, description, amount }
    }

    /// The date of the entry.
    pub closed spec fn spec_date(self) -> Seq<char> {
        self.date@
    }

    /// What the statement says of the entry.
    pub closed spec fn spec_description(self) -> Seq<char> {
        self.description@
    }

    /// What was spent, counted in units of 10^-28.
    pub closed spec fn spec_amount(self) -> int {
        self.amount@
    }

    /// The date of the entry, as it stands in the statement.
    pub fn date(&self) -> (r: &String)
        ensures
            r@ == self.spec_date(),
    {
        &self.date
    }

    /// What the statement says of the entry.
    pub fn description(&self) -> (r: &String)
        ensures
            r@ == self.spec_description(),
    {
        &self.description
    }

    /// What was spent.
    pub fn amount(&self) -> (r: &Amount)
        ensures
            r@ == self.spec_amount(),
    {
        &self.amount
    }
}

impl Clone for CreditRecord {
    fn clone(&self) -> (r: CreditRecord)
        ensures
            r.spec_date() == self.spec_date(),
            r.spec_description() == self.spec_description(),
            r.spec_amount() == self.spec_amount(),
    {
        CreditRecord {
            date: self.date.clone(),
            description: self.description.clone(),
            amount: self.amount,
        }
    }
}

/// What was spent with the card is a debit, without a category yet.
impl From<CreditRecord> for Record {
    fn from(val: CreditRecord) -> (r: Record) {
        Record {
            date: val.date,
            description: val.description,
            debit_amount: Some(val.amount),
            credit_amount: None,
            category: None,
        }
    }
}

impl vstd::std_specs::convert::FromSpecImpl<CreditRecord> for Record {
    open spec fn obeys_from_spec() -> bool {
        true
    }

    open spec fn from_spec(val: CreditRecord) -> Record {
        Record::spec_from_credit(val)
    }
}

impl Record {
    /// The ledger entry that stands for an entry of a credit card statement.
    pub closed spec fn spec_from_credit(val: CreditRecord) -> Record {
        Record {
            date: val.date,
            description: val.description,
            debit_amount: Some(val.amount),
            credit_amount: None,
            category: None,
        }
    }

    /// What the ledger entry of a credit card entry holds.
    pub proof fn lemma_from_credit(val: CreditRecord)
        ensures
            Record::spec_from_credit(val)@ == (RecordView {
                date: val.spec_date(),
                description: val.spec_description(),
                debit_amount: Some(val.spec_amount()),
                credit_amount: None,
                category: None,
            }),
    {
    }
}

} // verus!
