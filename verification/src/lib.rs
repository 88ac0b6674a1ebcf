//! Verified core of the Drasi change-routing plumbing: the Dapr and Redis
//! stream helpers and the change dispatcher's decisions.
pub mod deprovision;
pub mod text;
pub mod json;
pub mod headers;
pub mod dapr;
pub mod redis_stream;
pub mod dispatch;
