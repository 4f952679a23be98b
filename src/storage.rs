use vstd::prelude::*;
use crate::text::{joined, join_path};

verus! {

/// The backing of the module workspace.
#[derive(Clone, Copy, Debug, PartialEq, Eq, Structural)]
pub enum StorageMode {
    Tmpfs,
    Ext4,
    Erofs,
}

/// What storage selection finds on disk and in the kernel.
#[derive(Clone, Copy, Debug, PartialEq, Eq, Structural)]
pub struct StorageLayout {
    pub force_ext4: bool,
    /// The kernel lists `erofs` among its filesystems.
    pub erofs_supported: bool,
    pub erofs_image_exists: bool,
    pub ext4_image_exists: bool,
}

/// The backing that a layout calls for: a read-only EROFS image when allowed,
/// supported and present; else an ext4 image when present; else a tmpfs.
pub open spec fn storage_choice(l: StorageLayout) -> StorageMode {
    if !l.force_ext4 && l.erofs_supported && l.erofs_image_exists {
        StorageMode::Erofs
    } else if l.ext4_image_exists {
        StorageMode::Ext4
    } else {
        StorageMode::Tmpfs
    }
}

pub fn choose_storage(l: StorageLayout) -> (r: StorageMode)
    ensures
        r == storage_choice(l),
{
    if !l.force_ext4 && l.erofs_supported && l.erofs_image_exists {
        StorageMode::Erofs
    } else if l.ext4_image_exists {
        StorageMode::Ext4
    } else {
        StorageMode::Tmpfs
    }
}

/// The choice depends on the layout alone: the same layout gives the same
/// mode on every invocation.
pub proof fn lemma_storage_choice_stable(a: StorageLayout, b: StorageLayout)
    requires
        a == b,
    ensures
        storage_choice(a) == storage_choice(b),
{
}

pub open spec fn mode_name(m: StorageMode) -> Seq<char> {
    match m {
        StorageMode::Tmpfs => "tmpfs"@,
        StorageMode::Ext4 => "ext4"@,
        StorageMode::Erofs => "erofs"@,
    }
}

/// The name under which a mode is reported.
pub fn storage_mode_name(m: StorageMode) -> (r: String)
    ensures
        r@ == mode_name(m),
{
    match m {
        StorageMode::Tmpfs => "tmpfs".to_owned(),
        StorageMode::Ext4 => "ext4".to_owned(),
        StorageMode::Erofs => "erofs".to_owned(),
    }
}

/// Whether an image check ended well enough to mount: `e2fsck` exit codes up
/// to 2 mean the filesystem is usable; no code means it was not an exit.
pub fn fsck_tolerable(code: Option<i32>) -> (r: bool)
    ensures
        r == match code {
            Some(c) => c <= 2,
            None => true,
        },
{
    match code {
        Some(c) => c <= 2,
        None => true,
    }
}

/// The roots tried in turn for the magic-mount scratch directory.
pub fn temp_dir_candidates() -> (r: Vec<String>)
    ensures
        crate::text::texts(r@) == seq!["/debug_ramdisk"@, "/patch_hw"@, "/oem"@, "/root"@, "/sbin"@],
{
    let mut r: Vec<String> = Vec::new();
    r.push("/debug_ramdisk".to_owned());
    r.push("/patch_hw".to_owned());
    r.push("/oem".to_owned());
    r.push("/root".to_owned());
    r.push("/sbin".to_owned());
    assert(crate::text::texts(r@) =~= seq!["/debug_ramdisk"@, "/patch_hw"@, "/oem"@, "/root"@, "/sbin"@]);
    r
}

/// The scratch directory for the magic mount: the first candidate root that
/// exists and is empty (`usable[i]` for candidate `i`), else `workdir` under
/// the run directory.
pub fn select_temp_dir(candidates: &Vec<String>, usable: &Vec<bool>, run_dir: &str) -> (r: String)
    requires
        usable@.len() == candidates@.len(),
    ensures
        (exists|i: int| 0 <= i < usable@.len() && usable@[i]) ==> exists|i: int| 0 <= i < usable@.len() && usable@[i]
            && r@ == candidates@[i]@ && forall|j: int| 0 <= j < i ==> !#[trigger] usable@[j],
        (forall|i: int| 0 <= i < usable@.len() ==> !#[trigger] usable@[i]) ==> r@ == joined(run_dir@, "workdir"@),
{
    let mut i: usize = 0;
    while i < usable.len()
        invariant
            i <= usable@.len(),
            usable@.len() == candidates@.len(),
            forall|j: int| 0 <= j < i ==> !#[trigger] usable@[j],
        decreases usable@.len() - i,
    {
        if usable[i] {
            return candidates[i].clone();
        }
        i = i + 1;
    }
    join_path(run_dir, "workdir")
}


/// How a storage mode is shown in the module description.
pub open spec fn mode_label(m: StorageMode) -> Seq<char> {
    match m {
        StorageMode::Tmpfs => "Tmpfs"@,
        StorageMode::Ext4 => "Ext4"@,
        StorageMode::Erofs => "EROFS"@,
    }
}

/// The `description=` line written to the daemon module's `module.prop`
/// after a successful run.
pub open spec fn description_text(m: StorageMode, nuke_active: bool, overlay_count: u64, magic_count: u64) -> Seq<char> {
    "description=Running ("@ + mode_label(m) + ") | Overlay: "@ + crate::text::decimal(overlay_count as nat) + " | Magic: "@
        + crate::text::decimal(magic_count as nat) + (if nuke_active { " | Nuke: on"@ } else { Seq::empty() })
}

pub fn description_line(m: StorageMode, nuke_active: bool, overlay_count: u64, magic_count: u64) -> (r: String)
    ensures
        r@ == description_text(m, nuke_active, overlay_count, magic_count),
{
    let mut r = "description=Running (".to_owned();
    match m {
        StorageMode::Tmpfs => r.append("Tmpfs"),
        StorageMode::Ext4 => r.append("Ext4"),
        StorageMode::Erofs => r.append("EROFS"),
    }
    r.append(") | Overlay: ");
    crate::text::push_decimal(&mut r, overlay_count);
    r.append(" | Magic: ");
    crate::text::push_decimal(&mut r, magic_count);
    if nuke_active {
        r.append(" | Nuke: on");
    } else {
        assert(r@ + Seq::<char>::empty() =~= r@);
    }
    r
}

/// The lines of a `module.prop` with every `description=` line replaced.
pub fn replace_description(lines: Vec<String>, desc: &str) -> (r: Vec<String>)
    ensures
        r@.len() == lines@.len(),
        forall|i: int| 0 <= i < lines@.len() ==> #[trigger] r@[i]@ == if crate::text::has_prefix(lines@[i]@, "description="@) {
            desc@
        } else {
            lines@[i]@
        },
{
    let mut r: Vec<String> = Vec::new();
    let mut i: usize = 0;
    while i < lines.len()
        invariant
            i <= lines@.len(),
            r@.len() == i,
            forall|j: int| 0 <= j < i ==> #[trigger] r@[j]@ == if crate::text::has_prefix(lines@[j]@, "description="@) {
                desc@
            } else {
                lines@[j]@
            },
        decreases lines@.len() - i,
    {
        if crate::text::starts_with(lines[i].as_str(), "description=") {
            r.push(desc.to_owned());
        } else {
            r.push(lines[i].clone());
        }
        i = i + 1;
    }
    r
}

} // verus!
