use vstd::prelude::*;

pub mod catchers;
pub mod config;
pub mod csvstuff;
pub mod data_utils;
pub mod json;
pub mod paths;
pub mod rows;
pub mod sorting;
pub mod text;
