//! Merging the statements of several accounts into one ledger.

use crate::order::{
    is_stable_order, lemma_reordered_keeps, lemma_stable_order_by, orders, positions, reordered,
    sort_order_by, stable_order_by,
};
use crate::record::{record_views, CreditRecord, Record, RecordView};
use crate::text::{
    is_text_le, lemma_text_le_total, lemma_text_le_transitive, text_le, trim, trimmed, views,
};
use vstd::prelude::*;

verus! {

/// Merge arguments
#[derive(Debug)]
pub struct MergeArgs {
    pub files: Vec<String>,
    pub output: String,
}

/// Whether one of the headers of a statement is that of the sort code: it is
/// then a full statement, else that of a credit card.
pub open spec fn has_sort_code(headers: Seq<Seq<char>>) -> bool {
    exists|i: int| 0 <= i < headers.len() && trimmed(#[trigger] headers[i]) == "Sort Code"@
}

/// Whether the statement with these headers is a full one.
pub fn is_full_file(headers: &Vec<String>) -> (r: bool)
    ensures
        r == has_sort_code(views(headers@)),
{
    let wanted = String::from_str("Sort Code");
    let n = headers.len();
    let mut i: usize = 0;
    while i < n
        invariant
            n == headers.len(),
            i <= n,
            wanted@ == "Sort Code"@,
            forall|j: int| 0 <= j < i ==> trimmed(#[trigger] views(headers@)[j]) != "Sort Code"@,
        decreases n - i,
    {
        let header = trim(headers[i].as_str());
        if header == wanted {
            assert(trimmed(views(headers@)[i as int]) == "Sort Code"@);
            return true;
        }
        i = i + 1;
    }
    false
}

/// The entries of one statement.
pub enum Statement {
    /// A full statement, with debits, credits and categories.
    Full(Vec<Record>),
    /// The statement of a credit card.
    Credit(Vec<CreditRecord>),
}

/// The views of the entries of a credit card statement, as entries of a
/// ledger.
pub open spec fn credit_views(entries: Seq<CreditRecord>) -> Seq<RecordView> {
    Seq::new(entries.len(), |i: int| Record::spec_from_credit(entries[i])@)
}

/// The entries of a statement, as entries of a ledger.
pub open spec fn statement_views(statement: Statement) -> Seq<RecordView> {
    match statement {
        Statement::Full(entries) => record_views(entries@),
        Statement::Credit(entries) => credit_views(entries@),
    }
}

/// The entries of the statements, one statement after the other.
pub open spec fn all_views(statements: Seq<Statement>) -> Seq<RecordView>
    decreases statements.len(),
{
    if statements.len() == 0 {
        Seq::empty()
    } else {
        all_views(statements.drop_last()) + statement_views(statements.last())
    }
}

/// The order of entries by their dates, as texts.
pub open spec fn by_dates(entries: Seq<RecordView>) -> spec_fn(int, int) -> bool {
    |a: int, b: int| text_le(entries[a].date, entries[b].date)
}

/// The entries in the order of their dates, entries of the same date in
/// their own order.
pub open spec fn sorted_by_date(entries: Seq<RecordView>) -> Seq<RecordView> {
    reordered(entries, stable_order_by(by_dates(entries), entries.len()))
}

/// Sorting by date keeps each entry, as often as it is there; puts no entry
/// before one of an earlier date; and keeps the order of the entries of one
/// date.
pub proof fn lemma_sorted_by_date(entries: Seq<RecordView>)
    ensures
        sorted_by_date(entries).to_multiset() == entries.to_multiset(),
        is_stable_order(
            by_dates(entries),
            entries.len(),
            stable_order_by(by_dates(entries), entries.len()),
        ),
{
    lemma_reordered_keeps(entries, by_dates(entries), entries.len());
    assert(entries.take(entries.len() as int) == entries);
    let le = by_dates(entries);
    assert forall|a: int, b: int| 0 <= a < entries.len() && 0 <= b < entries.len() implies #[trigger] le(
        a,
        b,
    ) || le(b, a) by {
        lemma_text_le_total(entries[a].date, entries[b].date);
    }
    assert forall|a: int, b: int, c: int|
        0 <= a < entries.len() && 0 <= b < entries.len() && 0 <= c < entries.len() && #[trigger] le(
            a,
            b,
        ) && #[trigger] le(b, c) implies le(a, c) by {
        lemma_text_le_transitive(entries[a].date, entries[b].date, entries[c].date);
    }
    assert(orders(le, entries.len()));
    lemma_stable_order_by(le, entries.len());
}

/// The entries in the order of their dates, entries of the same date in
/// their own order.
pub fn sort_by_date(records: &Vec<Record>) -> (r: Vec<Record>)
    ensures
        record_views(r@) == sorted_by_date(record_views(records@)),
{
    let ghost entries = record_views(records@);
    let le = |a: usize, b: usize| -> (r: bool)
        requires
            a < records.len(),
            b < records.len(),
        ensures
            r == by_dates(record_views(records@))(a as int, b as int),
        { is_text_le(records[a].date().as_str(), records[b].date().as_str()) };
    let order = sort_order_by(records.len(), le, Ghost(by_dates(entries)));
    let mut sorted: Vec<Record> = Vec::new();
    let n = order.len();
    let mut i: usize = 0;
    while i < n
        invariant
            n == order.len(),
            n == records.len(),
            entries == record_views(records@),
            i <= n,
            sorted.len() == i,
            forall|j: int| 0 <= j < order.len() ==> order@[j] < n,
            forall|j: int| 0 <= j < i ==> sorted@[j]@ == entries[order@[j] as int],
        decreases n - i,
    {
        sorted.push(records[order[i]].clone());
        i = i + 1;
    }
    assert(record_views(sorted@) =~= reordered(entries, positions(order@)));
    sorted
}

/// One ledger of the entries of all statements, in the order of their
/// dates, entries of the same date in the order of the statements.
pub fn run(statements: &Vec<Statement>) -> (r: Vec<Record>)
    ensures
        record_views(r@) == sorted_by_date(all_views(statements@)),
{
    let mut records: Vec<Record> = Vec::new();
    let n = statements.len();
    let mut k: usize = 0;
    assert(statements@.take(0) == Seq::<Statement>::empty());
    assert(record_views(records@) == Seq::<RecordView>::empty());
    while k < n
        invariant
            n == statements.len(),
            k <= n,
            record_views(records@) == all_views(statements@.take(k as int)),
        decreases n - k,
    {
        let ghost start = record_views(records@);
        let ghost all = statement_views(statements@[k as int]);
        proof {
            assert(statements@.take(k + 1).drop_last() == statements@.take(k as int));
            assert(statements@.take(k + 1).last() == statements@[k as int]);
        }
        match &statements[k] {
            Statement::Full(entries) => {
                let m = entries.len();
                let mut i: usize = 0;
                assert(start + all.take(0) == start);
                while i < m
                    invariant
                        m == entries.len(),
                        all == record_views(entries@),
                        i <= m,
                        record_views(records@) == start + all.take(i as int),
                    decreases m - i,
                {
                    let ghost seen = record_views(records@);
                    records.push(entries[i].clone());
                    proof {
                        assert(record_views(records@) == seen.push(all[i as int]));
                        assert(all.take(i + 1) == all.take(i as int).push(all[i as int]));
                    }
                    i = i + 1;
                }
                assert(all.take(m as int) == all);
            },
            Statement::Credit(entries) => {
                let m = entries.len();
                let mut i: usize = 0;
                assert(start + all.take(0) == start);
                while i < m
                    invariant
                        m == entries.len(),
                        all == credit_views(entries@),
                        i <= m,
                        record_views(records@) == start + all.take(i as int),
                    decreases m - i,
                {
                    let ghost seen = record_views(records@);
                    let entry = entries[i].clone();
                    proof {
                        Record::lemma_from_credit(entry);
                        Record::lemma_from_credit(entries@[i as int]);
                    }
                    records.push(Record::from(entry));
                    proof {
                        assert(record_views(records@) == seen.push(all[i as int]));
                        assert(all.take(i + 1) == all.take(i as int).push(all[i as int]));
                    }
                    i = i + 1;
                }
                assert(all.take(m as int) == all);
            },
        }
        k = k + 1;
    }
    assert(statements@.take(n as int) == statements@);
    sort_by_date(&records)
}

} // verus!
