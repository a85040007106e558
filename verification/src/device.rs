use vstd::prelude::*;

verus! {

/// One backlight device, identified by the name of its directory under the
/// device-class tree. Reading and writing the device's files is the caller's
/// business; this type only carries the name the paths are built from.
pub struct GenericBacklight {
    pub path: String,
}

impl GenericBacklight {
    /// Make a handle for the device directory named `p`.
    pub fn new(p: String) -> (r: GenericBacklight)
        ensures
            r.path@ == p@,
    {
        GenericBacklight { path: p }
    }
}

} // verus!
