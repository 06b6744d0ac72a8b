//! Lists the members of a ZIP archive held in a byte buffer, by walking its
//! local file headers, and renders the listing as JSON text.
pub mod descriptor;
pub mod entry;
pub mod json;
pub mod names;
pub mod scan;

use vstd::prelude::*;
pub use crate::descriptor::JsonResult;
pub use crate::entry::{entries_view, ZipEntry};
pub use crate::json::{entries_json, json_listing};
pub use crate::scan::{archive_entries, scan_entries};

verus! {

/// Scans the archive in `data` and renders its entries as a JSON array of
/// records `{"path":..,"is_file":..,"is_encrypted":..}`, in the order of their
/// headers. Malformed content never fails the scan: the listing is always
/// produced.
pub fn list_zip_entries(data: &[u8]) -> (r: String)
    ensures
        r@ == json_listing(archive_entries(data@)),
{
    let entries = scan_entries(data);
    entries_json(&entries)
}

/// A buffer shorter than a local file header lists as the empty array `[]`.
pub proof fn lemma_short_buffer_lists_empty_array(d: Seq<u8>)
    requires
        d.len() < scan::HEADER_LEN,
    ensures
        json_listing(archive_entries(d)) == "[]"@,
{
    scan::lemma_short_buffer_has_no_entries(d);
    reveal_strlit("[]");
    reveal_strlit("[");
    reveal_strlit("]");
    assert(json_listing(archive_entries(d)) =~= "[]"@);
}

/// The listing is a function of the buffer's bytes alone: two scans of equal
/// buffers render the same text.
pub proof fn lemma_listing_is_deterministic(d1: Seq<u8>, d2: Seq<u8>)
    requires
        d1 == d2,
    ensures
        archive_entries(d1) == archive_entries(d2),
        json_listing(archive_entries(d1)) == json_listing(archive_entries(d2)),
{
}

} // verus!
