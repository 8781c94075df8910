//! Order feeds: a synthetic random walk and the LOBSTER message format.

pub mod lobster;
pub mod random;
