//! A codec for PostgreSQL `hstore` text: `"key"=>"value"` pairs separated by
//! commas, where a value is a quoted string or the token `NULL`.
pub mod dump;
pub mod load;
pub mod pair_map;
pub mod round_trip;
mod text;
