pub mod data;
pub mod graphs;
pub mod logs;
