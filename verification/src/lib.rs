//! Payment-request URIs of the `bitcoin:` scheme: a verified encoder
//! (`URIResources::build_uri`) and decoder (`parse`) for
//! `bitcoin:<address>[?key=value[&...]]` texts, with exact contracts over a
//! character-sequence model and proved laws relating the two directions.

pub mod amount;
pub mod decode;
pub mod laws;
pub mod params;
pub mod request;
pub mod strkit;
pub mod urlcall;

pub use amount::Amount;
pub use decode::parse;
pub use decode::parse_address;
pub use decode::parse_amount;
pub use decode::parse_params;
pub use request::Error;
pub use request::URIResources;
