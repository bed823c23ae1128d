//! Where a loader of JSON policy documents finds them.
use vstd::prelude::*;

verus! {

/// The directory that holds the default policy documents.
pub const DEFAULT_BASE_DIR: &'static str = "testdata";

/// A loader of per-principal JSON policy documents, each in a file named after
/// the principal under a base directory. The reading and parsing are done
/// around the library; compiling the roles is [`crate::compiler::apply_roles`].
pub struct JsonPolicyLoader {
    base_dir: String,
}

impl JsonPolicyLoader {
    /// A loader of the documents under `base_dir`.
    pub fn new(base_dir: &str) -> (r: JsonPolicyLoader)
        ensures
            r.base_dir_view() == base_dir@,
    {
        JsonPolicyLoader { base_dir: base_dir.to_owned() }
    }

    /// The directory of the documents.
    pub closed spec fn base_dir_view(&self) -> Seq<char> {
        self.base_dir@
    }

    /// The directory of the documents.
    pub fn base_dir(&self) -> (r: &str)
        ensures
            r@ == self.base_dir_view(),
    {
        self.base_dir.as_str()
    }
}

impl Default for JsonPolicyLoader {
    fn default() -> (r: JsonPolicyLoader)
        ensures
            r.base_dir_view() == DEFAULT_BASE_DIR@,
    {
        JsonPolicyLoader::new(DEFAULT_BASE_DIR)
    }
}

} // verus!
