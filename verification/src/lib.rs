//! Verified core of a small file upload and download service: request
//! throttling per client, hour-based download passwords, upload file naming
//! and the access decisions taken by the HTTP handlers.

pub mod access;
pub mod files;
pub mod limiter;
pub mod password;
pub mod text;
