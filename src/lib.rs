//! A graph of exchange rates between currencies that derives indirect rates
//! through the shortest chain of known conversions.
pub mod laws;
pub mod model;
pub mod rates;

pub use model::Conversion;
pub use rates::ExchangeRates;
