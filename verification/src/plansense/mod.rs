pub mod caching;
pub mod clustering;
pub mod fingerprint;
