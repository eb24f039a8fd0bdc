pub mod fingerprint;
