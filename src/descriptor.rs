use vstd::prelude::*;

verus! {

/// Describes a result buffer handed to the host: the address of its first
/// byte and its length in bytes.
#[derive(Debug, Clone, Copy, PartialEq, Eq, Structural)]
pub struct JsonResult {
    pub ptr: usize,
    pub len: usize,
}

impl JsonResult {
    pub fn new(ptr: usize, len: usize) -> (r: JsonResult)
        ensures
            r.ptr == ptr,
            r.len == len,
    {
        JsonResult { ptr, len }
    }
}

} // verus!
