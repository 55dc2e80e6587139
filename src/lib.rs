//! A quota-enforcing middleware for a single-threaded request pipeline.
//!
//! A [`hub::Hub`] is a metered traffic source, a [`quota::QuotaManager`]
//! holds the per-hub message limits, and [`quota::QuotaServiceState`]
//! together with [`quota::QuotaServiceResponse`] decides, call by call and
//! resumption by resumption, whether a request is forwarded to the wrapped
//! handler or refused. [`laws`] states what holds over many calls.
pub mod error;
pub mod hub;
pub mod laws;
pub mod quota;
