//! A threshold-authorization wallet: members propose requests, confirm them,
//! and a request runs its actions once enough members have confirmed it.
pub mod types;
pub mod wallet;
