//! What holds of the library as a whole, whatever the prices and the usage.
pub mod arithmetic;
pub mod counting;
pub mod figures;
pub mod names;
pub mod page;
pub mod prices;
pub mod rates;
pub mod source;
pub mod summary;
