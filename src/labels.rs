use vstd::prelude::*;

verus! {

/// The label given where no other can be had.
pub open spec fn default_label() -> Seq<char> {
    "u:object_r:system_file:s0"@
}

pub fn default_context() -> (r: String)
    ensures
        r@ == default_label(),
        r@.len() > 0,
{
    proof {
        reveal_strlit("u:object_r:system_file:s0");
    }
    "u:object_r:system_file:s0".to_owned()
}

/// A label read from a path, usable only when it is not empty.
pub open spec fn usable(l: Option<String>) -> bool {
    l matches Some(s) && s@.len() > 0
}

/// The label to copy from `src`: its own when it exists and can be read,
/// else the default.
pub open spec fn copied_label(src_exists: bool, src_label: Option<String>) -> Seq<char> {
    if src_exists && usable(src_label) { src_label.unwrap()@ } else { default_label() }
}

pub fn copy_path_context(src_exists: bool, src_label: Option<String>) -> (r: String)
    ensures
        r@ == copied_label(src_exists, src_label),
        r@.len() > 0,
{
    match src_label {
        Some(l) => {
            if src_exists && l.unicode_len() > 0 {
                l
            } else {
                default_context()
            }
        },
        None => default_context(),
    }
}

/// What the label policy sees for one file copied into the workspace.
#[derive(Clone, Debug)]
pub struct LabelSources {
    /// The file is an overlay `upperdir` or `workdir`.
    pub is_sentinel: bool,
    /// The label of its parent in the workspace, if readable.
    pub parent_label: Option<String>,
    /// The host path at the same place exists.
    pub host_exists: bool,
    pub host_label: Option<String>,
    /// The host path's parent directory exists.
    pub host_parent_exists: bool,
    pub host_parent_label: Option<String>,
}

/// The label a copied file gets: an overlay sentinel inherits its parent's;
/// otherwise the host's own label, else the host parent's, else the default.
pub open spec fn repaired_label(s: LabelSources) -> Seq<char> {
    if s.is_sentinel && usable(s.parent_label) {
        s.parent_label.unwrap()@
    } else if s.host_exists {
        copied_label(true, s.host_label)
    } else if s.host_parent_exists {
        copied_label(true, s.host_parent_label)
    } else {
        default_label()
    }
}

/// The label for a file after sync; it is never empty.
pub fn repair_label(s: LabelSources) -> (r: String)
    ensures
        r@ == repaired_label(s),
        r@.len() > 0,
{
    let sentinel_label = match &s.parent_label {
        Some(l) => s.is_sentinel && l.unicode_len() > 0,
        None => false,
    };
    if sentinel_label {
        return s.parent_label.unwrap();
    }
    if s.host_exists {
        copy_path_context(true, s.host_label)
    } else if s.host_parent_exists {
        copy_path_context(true, s.host_parent_label)
    } else {
        default_context()
    }
}

/// Whether a file name marks an overlay sentinel directory.
pub fn is_sentinel_name(name: &str) -> (r: bool)
    ensures
        r == (name@ == "upperdir"@ || name@ == "workdir"@),
{
    crate::inventory::str_equal(name, "upperdir") || crate::inventory::str_equal(name, "workdir")
}

} // verus!
