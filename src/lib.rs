//! Choice of the two resistors and two capacitors of a gyrator filter from
//! the preferred-value series, for a target frequency and quality factor.
pub mod argument;
pub mod natural;
pub mod order;
pub mod quantity;
pub mod search;
pub mod series;

pub use argument::{Arg, Input, Window};
pub use quantity::Quantity;
pub use search::{calculate, Selection};
pub use series::{series_table, Series};
