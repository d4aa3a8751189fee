use vstd::prelude::*;

verus! {

/// How erased ranges are written in the output.
#[derive(Debug, Clone, Copy)]
pub struct StripTypesOptions {
    /// Replace types with spaces, so that retained code keeps its offsets.
    /// Default is `true`.
    pub replace_with_space: bool,
}

impl Default for StripTypesOptions {
    fn default() -> (r: Self)
        ensures
            r.replace_with_space,
    {
        StripTypesOptions { replace_with_space: true }
    }
}

} // verus!
