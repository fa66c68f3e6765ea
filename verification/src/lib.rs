//! The category tree of a personal-finance ledger.
//!
//! The entries of a ledger are filed in a [`Tree`] under the segments of
//! their categories. A tree gives the total of each category, walks through
//! its categories in their own order or in the order of a key, and is
//! compared with other trees: for equality, and, one tree for each period,
//! for the averages of the categories over the periods.
//!
//! Amounts are exact decimal numbers. Sums are computed by `rust_decimal`
//! and handed out only where they are exact.

pub mod amount;
pub mod analyze;
pub mod calc;
pub mod compare;
pub mod merge;
pub mod order;
pub mod record;
pub mod text;
pub mod tree;
pub mod utils;
pub mod wide;

pub use record::Record;
pub use tree::Tree;
