use vstd::prelude::*;
use vstd::string::StringExecFns;

verus! {

/// Name that a cache directory has.
pub const CACHE_DIR_NAME: &'static str = "target";

/// Name of the regular file that marks a directory as a cache.
pub const CACHE_MARKER: &'static str = "CACHEDIR.TAG";

/// How many levels of directories the walker reads, the starting one included.
pub const MAX_DEPTH: usize = 16;

/// One directory as read from disk.
///
/// `files` holds the names of the regular files directly in it, `subdirs`
/// its subdirectories in the order they were listed. A directory that could
/// not be listed has `readable == false`; what it holds is then ignored.
#[derive(Debug)]
pub struct Dir {
    pub name: String,
    pub readable: bool,
    pub files: Vec<String>,
    pub subdirs: Vec<Dir>,
}

/// The directory holds a regular file with the marker's name.
pub open spec fn has_marker(d: Dir) -> bool {
    exists|j: int| 0 <= j < d.files@.len() && #[trigger] d.files@[j]@ == CACHE_MARKER@
}

/// A directory is a cache when it is named `target`, can be listed, and
/// directly holds the marker file.
pub open spec fn is_cache_dir(d: Dir) -> bool {
    &&& d.name@ == CACHE_DIR_NAME@
    &&& d.readable
    &&& has_marker(d)
}

/// Decides whether `d` is a cache; a directory that could not be listed is not.
pub fn is_cache(d: &Dir) -> (r: bool)
    ensures
        r == is_cache_dir(*d),
{
    let name = String::from_str(CACHE_DIR_NAME);
    if !(d.name == name) || !d.readable {
        return false;
    }
    let marker = String::from_str(CACHE_MARKER);
    let mut j: usize = 0;
    while j < d.files.len()
        invariant
            j <= d.files@.len(),
            marker@ == CACHE_MARKER@,
            d.name@ == CACHE_DIR_NAME@,
            d.readable,
            forall|k: int| 0 <= k < j ==> d.files@[k]@ != CACHE_MARKER@,
        decreases d.files@.len() - j,
    {
        if d.files[j] == marker {
            assert(d.files@[j as int]@ == CACHE_MARKER@);
            return true;
        }
        j = j + 1;
    }
    false
}

} // verus!
