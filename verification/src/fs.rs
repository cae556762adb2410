use vstd::prelude::*;

verus! {

/// Access to a file tree, for the parts of the router that read datasets
/// from one: listing a directory and making a path absolute.
pub trait Fs {
    fn ls(&self, path: &str) -> Result<Vec<String>, String>;

    fn abs(&self, path: &str) -> String;
}

} // verus!
