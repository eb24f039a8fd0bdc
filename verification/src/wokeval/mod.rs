pub mod cost;
pub mod io_model;
