//! What a log holds: records, transactions and the schemas that describe records.

pub mod record;
pub mod schema;
pub mod transaction;
pub mod util;
