use vstd::prelude::*;
use crate::data_utils::path_exists;

verus! {

/// A named number of a form grid.
pub struct GridData {
    pub name: String,
    pub value: i32,
}

/// Just a test struct.
pub struct FormDataTest {
    test: String,
}

/// Checks if file exists.
pub fn file_exists(file: &str) -> bool {
    path_exists(file)
}

} // verus!
