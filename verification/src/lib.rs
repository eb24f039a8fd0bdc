//! Planning and storage-design core of the OptiQ backend: the learned-index
//! write buffer, density-based clustering of query plans, the plan cache,
//! plan hashing, and the decision parts of the cost models.
pub mod db;
pub mod plansense;
pub mod text;
pub mod wok;
pub mod wokeval;
