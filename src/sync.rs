use vstd::prelude::*;
use crate::inventory::{Module, MountMode, str_equal};

verus! {

/// An entry of the workspace that no active module owns and that is not
/// one of the names the workspace keeps.
pub open spec fn orphan(name: Seq<char>, modules: Seq<Module>) -> bool {
    name != "lost+found"@ && name != "meta-hybrid"@ && forall|i: int| 0 <= i < modules.len() ==> #[trigger] modules[i].id@ != name
}

/// Whether the workspace entry `name` is to be removed.
pub fn is_orphan(name: &str, modules: &Vec<Module>) -> (r: bool)
    ensures
        r == orphan(name@, modules@),
{
    if str_equal(name, "lost+found") || str_equal(name, "meta-hybrid") {
        return false;
    }
    let mut i: usize = 0;
    while i < modules.len()
        invariant
            i <= modules@.len(),
            name@ != "lost+found"@ && name@ != "meta-hybrid"@,
            forall|j: int| 0 <= j < i ==> #[trigger] modules@[j].id@ != name@,
        decreases modules@.len() - i,
    {
        if str_equal(modules[i].id.as_str(), name) {
            return false;
        }
        i = i + 1;
    }
    true
}

/// Whether a module is copied into the workspace anew: not a magic module
/// (those are read in place), with content in some partition, and with no
/// copy yet or a copy whose `module.prop` differs or cannot be compared
/// (`props_equal` is nothing then).
pub open spec fn sync_needed(m: Module, has_content: bool, copy_exists: bool, props_equal: Option<bool>) -> bool {
    m.rules.default_mode != MountMode::Magic && has_content && (!copy_exists || props_equal != Some(true))
}

pub fn needs_sync(m: &Module, has_content: bool, copy_exists: bool, props_equal: Option<bool>) -> (r: bool)
    ensures
        r == sync_needed(*m, has_content, copy_exists, props_equal),
{
    let equal = match props_equal {
        Some(true) => true,
        _ => false,
    };
    m.rules.default_mode != MountMode::Magic && has_content && (!copy_exists || !equal)
}

/// Whether a module file below `system` is left to an earlier strategy:
/// `served` lists the partitions already mounted for its module, and the
/// file's first path component names the partition it belongs to.
pub open spec fn already_served(first: Seq<char>, served: Seq<Seq<char>>) -> bool {
    served.contains("system"@) || served.contains(first)
}

pub fn is_served(first: &str, served: &Vec<String>) -> (r: bool)
    ensures
        r == already_served(first@, crate::text::texts(served@)),
{
    crate::text::contains_text(served, "system") || crate::text::contains_text(served, first)
}

} // verus!
