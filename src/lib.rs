//! PostgreSQL v3 wire-protocol core of a masking proxy: a verified frame
//! codec for both directions of a connection, and a column-masking handler
//! applied to the rows that flow from server to client.

pub mod backend;
pub mod frontend;
pub mod interfaces;
pub mod masking;
pub mod proxy;
pub mod wire;

use vstd::prelude::*;

verus! {

} // verus!
