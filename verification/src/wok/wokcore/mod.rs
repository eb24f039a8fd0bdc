pub mod coop;
pub mod design;
