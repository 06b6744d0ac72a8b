use vstd::prelude::*;

verus! {

/// What a listing says of one archive member.
pub struct EntrySpec {
    pub path: Seq<char>,
    pub is_file: bool,
    pub is_encrypted: bool,
}

/// A path names a directory when its last character is a forward slash.
pub open spec fn names_directory(path: Seq<char>) -> bool {
    path.len() > 0 && path.last() == '/'
}

/// One archive member found by a scan.
#[derive(Debug, PartialEq, Eq)]
pub struct ZipEntry {
    pub path: String,
    pub is_file: bool,
    pub is_encrypted: bool,
}

impl View for ZipEntry {
    type V = EntrySpec;

    open spec fn view(&self) -> EntrySpec {
        EntrySpec { path: self.path@, is_file: self.is_file, is_encrypted: self.is_encrypted }
    }
}

/// The model of a sequence of entries.
pub open spec fn entries_view(es: Seq<ZipEntry>) -> Seq<EntrySpec> {
    es.map_values(|e: ZipEntry| e@)
}

/// Whether `path` ends with a forward slash.
pub fn ends_with_slash(path: &String) -> (r: bool)
    ensures
        r == names_directory(path@),
{
    let s = path.as_str();
    let n = s.unicode_len();
    n > 0 && s.get_char(n - 1) == '/'
}

impl ZipEntry {
    /// The entry for a member named `path`; it is a file unless the name ends
    /// with a slash.
    pub fn new(path: String, is_encrypted: bool) -> (r: ZipEntry)
        ensures
            r.path@ == path@,
            r.is_file == !names_directory(path@),
            r.is_encrypted == is_encrypted,
    {
        let is_file = !ends_with_slash(&path);
        ZipEntry { path, is_file, is_encrypted }
    }
}

} // verus!
