use vstd::prelude::*;

verus! {

/// A named number of a form grid.
pub struct GridData {
    pub name: String,
    pub value: i32,
}

/// Whether something exists at `file` (`std::path::Path::exists`). Nothing is claimed of the
/// answer: it depends on the file system when the call is made.
#[verifier::external_body]
pub(crate) fn path_exists(file: &str) -> bool {
    std::path::Path::new(file).exists()
}

/// Checks if file exists.
pub fn file_exists(file: &str) -> bool {
    path_exists(file)
}

} // verus!
