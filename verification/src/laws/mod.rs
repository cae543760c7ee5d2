//! What holds of the library as a whole, proved from what its parts state.

pub mod books;
pub mod order;
pub mod cycles;
pub mod histories;
pub mod settlements;
pub mod replays;
pub mod calendar;
pub mod amounts;
pub mod quotes;
pub mod walks;
pub mod makers;
pub mod positions;
pub mod marks;
pub mod payouts;
pub mod records;
pub mod views;
pub mod numbers;
