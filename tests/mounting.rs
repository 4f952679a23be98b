use meta_hybrid::labels::{copy_path_context, repair_label, LabelSources};
use meta_hybrid::node::{attach_partitions, decide_tmpfs, plan_directory, DirStep, HostEntry, ModuleFile, Node, NodeFileType, PartitionHost};
use meta_hybrid::overlay::{child_mount_points, legacy_mount_data, lowerdir_config, mount_overlay_child, ChildMount, LowerKind};
use meta_hybrid::storage::{choose_storage, fsck_tolerable, select_temp_dir, storage_mode_name, temp_dir_candidates, StorageLayout, StorageMode};
use meta_hybrid::utils::{content_path, random_kworker_name, validate_module_id};
use meta_hybrid::inventory::{Module, ModuleRules};

fn s(x: &str) -> String {
    x.to_string()
}

fn child(name: &str, t: NodeFileType) -> Node {
    let mut n = Node::new_root(s(name));
    n.file_type = t;
    n
}

fn host(kind: Option<NodeFileType>, exists: bool) -> HostEntry {
    HostEntry { kind, exists }
}

#[test]
fn skip_only_where_no_source_for_tmpfs() {
    let mut dir = Node::new_root(s("etc"));
    dir.children.push(child("link", NodeFileType::Symlink));
    dir.children.push(child("same", NodeFileType::RegularFile));
    dir.children.push(child("gone", NodeFileType::Whiteout));
    dir.children.push(child("ghost", NodeFileType::Whiteout));
    let hosts = vec![
        host(None, false),
        host(Some(NodeFileType::RegularFile), true),
        host(Some(NodeFileType::RegularFile), true),
        host(None, false),
    ];
    let create = decide_tmpfs(&mut dir, false, &hosts);
    assert!(!create);
    let skips: Vec<bool> = dir.children.iter().map(|c| c.skip).collect();
    assert_eq!(skips, vec![true, false, true, false]);
}

#[test]
fn source_allows_tmpfs_instead_of_skip() {
    let mut dir = Node::new_root(s("etc"));
    dir.module_source = Some(s("/s/m/system/etc"));
    dir.children.push(child("same", NodeFileType::RegularFile));
    dir.children.push(child("newdir", NodeFileType::Directory));
    let create = decide_tmpfs(&mut dir, false, &vec![host(Some(NodeFileType::RegularFile), true), host(None, false)]);
    assert!(create);
    assert!(dir.children.iter().all(|c| !c.skip));
    let mut inside = Node::new_root(s("etc"));
    inside.children.push(child("link", NodeFileType::Symlink));
    assert!(!decide_tmpfs(&mut inside, true, &vec![host(None, false)]));
    assert!(!inside.children[0].skip);
}

fn file(path: &[&str], t: NodeFileType, whiteout: bool, replace: bool) -> ModuleFile {
    ModuleFile {
        relative_path: path.iter().map(|p| s(p)).collect(),
        real_path: format!("/s/m/system/{}", path.join("/")),
        file_type: t,
        is_whiteout: whiteout,
        is_replace: replace,
    }
}

#[test]
fn whiteout_and_replace_tree() {
    let mut system = Node::new_root(s("system"));
    let files = vec![
        file(&["etc"], NodeFileType::Directory, false, false),
        file(&["etc", "foo"], NodeFileType::RegularFile, true, false),
        file(&["etc", "bar"], NodeFileType::Directory, false, true),
        file(&["etc", "bar", ".replace"], NodeFileType::RegularFile, false, false),
        file(&["etc", "bar", "only"], NodeFileType::RegularFile, false, false),
    ];
    assert!(system.collect_module_files(&files));
    let etc = &system.children[0];
    assert_eq!(etc.name, "etc");
    let foo = etc.children.iter().find(|c| c.name == "foo").unwrap();
    assert_eq!(foo.file_type, NodeFileType::Whiteout);
    let bar = etc.children.iter().find(|c| c.name == "bar").unwrap();
    assert!(bar.replace);
    assert_eq!(bar.children.len(), 1);
    assert_eq!(bar.children[0].name, "only");
    // a replaced directory ignores the host's entries
    let steps = plan_directory(bar, true, true, &vec![s("host_a"), s("host_b")]);
    assert_eq!(steps.len(), 1);
    assert!(matches!(steps[0], DirStep::Descend(0)));
    // the whiteout's host entry is not mirrored into the tmpfs
    let etc_steps = plan_directory(etc, true, true, &vec![s("foo"), s("hosts")]);
    assert!(matches!(etc_steps[0], DirStep::Descend(_)));
    assert!(matches!(&etc_steps[1], DirStep::Mirror(n) if n == "hosts"));
}

#[test]
fn later_module_wins_on_same_path() {
    let mut system = Node::new_root(s("system"));
    let mut a = file(&["bin", "tool"], NodeFileType::RegularFile, false, false);
    a.real_path = s("/s/a/system/bin/tool");
    let mut b = file(&["bin", "tool"], NodeFileType::RegularFile, false, false);
    b.real_path = s("/s/b/system/bin/tool");
    system.add_module_file(&a);
    system.add_module_file(&b);
    assert_eq!(system.children.len(), 1);
    assert_eq!(system.children[0].children[0].module_source, Some(s("/s/b/system/bin/tool")));
    assert!(!system.collect_module_files(&vec![file(&[".replace"], NodeFileType::RegularFile, false, false)]));
}

#[test]
fn partitions_lift_out_of_system() {
    let mut system = Node::new_root(s("system"));
    system.children.push(child("vendor", NodeFileType::Directory));
    system.children.push(child("product", NodeFileType::Directory));
    let mut link = child("my_part", NodeFileType::Symlink);
    link.module_source = Some(s("/s/m/system/my_part"));
    system.children.push(link);
    system.children.push(child("etc", NodeFileType::Directory));
    let hosts = vec![
        PartitionHost { name: s("vendor"), root_is_dir: true, system_entry_is_symlink: true },
        PartitionHost { name: s("product"), root_is_dir: true, system_entry_is_symlink: false },
        PartitionHost { name: s("my_part"), root_is_dir: true, system_entry_is_symlink: false },
    ];
    let root = attach_partitions(system, true, &hosts, &vec![s("my_part")], &vec![s("/s/m/system/my_part")]).unwrap();
    let names: Vec<String> = root.children.iter().map(|c| c.name.clone()).collect();
    assert_eq!(names, vec![s("vendor"), s("my_part"), s("system")]);
    assert_eq!(root.children[1].file_type, NodeFileType::Directory);
    let sys = &root.children[2];
    let left: Vec<String> = sys.children.iter().map(|c| c.name.clone()).collect();
    assert_eq!(left, vec![s("product"), s("etc")]);
    assert!(attach_partitions(Node::new_root(s("system")), false, &hosts, &Vec::new(), &Vec::new()).is_none());
}

#[test]
fn storage_choice_is_stable() {
    let l = StorageLayout { force_ext4: false, erofs_supported: true, erofs_image_exists: true, ext4_image_exists: true };
    assert_eq!(choose_storage(l), StorageMode::Erofs);
    assert_eq!(choose_storage(l), choose_storage(l));
    assert_eq!(choose_storage(StorageLayout { force_ext4: true, ..l }), StorageMode::Ext4);
    let bare = StorageLayout { force_ext4: false, erofs_supported: false, erofs_image_exists: false, ext4_image_exists: false };
    assert_eq!(choose_storage(bare), StorageMode::Tmpfs);
    assert_eq!(storage_mode_name(StorageMode::Erofs), "erofs");
    assert!(fsck_tolerable(Some(2)));
    assert!(!fsck_tolerable(Some(4)));
    assert!(fsck_tolerable(None));
}

#[test]
fn temp_dir_first_empty_candidate() {
    let c = temp_dir_candidates();
    assert_eq!(select_temp_dir(&c, &vec![false, false, true, true, false], "/run"), "/oem");
    assert_eq!(select_temp_dir(&c, &vec![false; 5], "/data/adb/meta-hybrid/run"), "/data/adb/meta-hybrid/run/workdir");
}

#[test]
fn labels_are_never_empty() {
    assert_eq!(copy_path_context(true, Some(s("u:object_r:vendor_file:s0"))), "u:object_r:vendor_file:s0");
    assert_eq!(copy_path_context(true, Some(s(""))), "u:object_r:system_file:s0");
    assert_eq!(copy_path_context(false, Some(s("x"))), "u:object_r:system_file:s0");
    let sentinel = LabelSources {
        is_sentinel: true,
        parent_label: Some(s("u:object_r:parent:s0")),
        host_exists: true,
        host_label: Some(s("u:object_r:host:s0")),
        host_parent_exists: true,
        host_parent_label: None,
    };
    assert_eq!(repair_label(sentinel.clone()), "u:object_r:parent:s0");
    let plain = LabelSources { is_sentinel: false, ..sentinel.clone() };
    assert_eq!(repair_label(plain), "u:object_r:host:s0");
    let parent_only = LabelSources { is_sentinel: false, host_exists: false, host_parent_label: Some(s("u:object_r:p:s0")), ..sentinel.clone() };
    assert_eq!(repair_label(parent_only), "u:object_r:p:s0");
    let nothing = LabelSources { is_sentinel: false, host_exists: false, host_parent_exists: false, ..sentinel };
    assert_eq!(repair_label(nothing), "u:object_r:system_file:s0");
}

#[test]
fn module_ids() {
    assert!(validate_module_id("m1").is_ok());
    assert!(validate_module_id("my.module_name-2").is_ok());
    assert!(validate_module_id("a").is_err());
    assert!(validate_module_id("1abc").is_err());
    assert!(validate_module_id("bad id").is_err());
    assert!(validate_module_id("").is_err());
    assert_eq!(
        validate_module_id("x").unwrap_err(),
        "Invalid module ID: 'x'. Must match /^[a-zA-Z][a-zA-Z0-9._-]+$/"
    );
}

#[test]
fn kworker_names() {
    assert_eq!(random_kworker_name(0x25), "kworker/u5:2");
    assert_eq!(random_kworker_name(0), "kworker/u0:0");
    assert_eq!(random_kworker_name(u64::MAX), "kworker/u15:5");
}

#[test]
fn overlay_strings() {
    assert_eq!(lowerdir_config(&vec![s("/a/system"), s("/b/system")], "."), "/a/system:/b/system:.");
    assert_eq!(lowerdir_config(&Vec::new(), "."), ".");
    assert_eq!(legacy_mount_data("/a:.", None, None), "lowerdir=/a:.");
    assert_eq!(legacy_mount_data("/a:.", Some("/u"), Some("/w")), "lowerdir=/a:.,upperdir=/u,workdir=/w");
}

#[test]
fn child_mounts_below_target() {
    let mounts = vec![s("/system/vendor"), s("/system"), s("/system_ext"), s("/"), s("/system/app/x"), s("/system/vendor")];
    assert_eq!(child_mount_points("/system", &mounts), vec![s("/system/app/x"), s("/system/vendor")]);
}

#[test]
fn child_overlay_decisions() {
    let roots = vec![s("/s/a/system"), s("/s/b/system")];
    assert!(matches!(mount_overlay_child("/x", &roots, &vec![LowerKind::Absent, LowerKind::Absent], true), ChildMount::BindStock));
    assert!(matches!(mount_overlay_child("/x", &roots, &vec![LowerKind::Directory, LowerKind::Other], true), ChildMount::Leave));
    assert!(matches!(mount_overlay_child("/x", &roots, &vec![LowerKind::Directory, LowerKind::Absent], false), ChildMount::Leave));
    match mount_overlay_child("/x", &roots, &vec![LowerKind::Absent, LowerKind::Directory], true) {
        ChildMount::Overlay(l) => assert_eq!(l, vec![s("/s/b/system/x")]),
        _ => panic!("expected an overlay"),
    }
}

#[test]
fn content_path_prefers_storage_copy() {
    let m = Module { id: s("m1"), source_path: s("/data/adb/modules/m1"), rules: ModuleRules::new() };
    assert_eq!(content_path("/mnt/store", &m, true), "/mnt/store/m1");
    assert_eq!(content_path("/mnt/store", &m, false), "/data/adb/modules/m1");
}

#[test]
fn kernel_module_choice() {
    let names = vec![s("nuke_5.4_android11.ko"), s("nuke_5.10_android12.ko"), s("nuke_5.10_android13.ko"), s("nuke_6.1.ko")];
    assert_eq!(meta_hybrid::nuke::pick_kernel_module(&names, "5.10", "13"), Some(2));
    assert_eq!(meta_hybrid::nuke::pick_kernel_module(&names, "5.10", "14"), Some(1));
    assert_eq!(meta_hybrid::nuke::pick_kernel_module(&names, "5.10", ""), Some(1));
    assert_eq!(meta_hybrid::nuke::pick_kernel_module(&names, "4.19", "12"), None);
    assert_eq!(meta_hybrid::nuke::kernel_short("5.10.101-android12-9"), Some(s("5.10")));
    assert_eq!(meta_hybrid::nuke::kernel_short("6.1"), Some(s("6.1")));
    assert_eq!(meta_hybrid::nuke::kernel_short("6"), None);
    assert!(meta_hybrid::nuke::usable_symbol_address("0xffffffc0081a2b3c"));
    assert!(!meta_hybrid::nuke::usable_symbol_address("0x0000000000000000"));
    assert!(!meta_hybrid::nuke::usable_symbol_address(""));
    assert!(meta_hybrid::nuke::contains_str("abcabd", "abd"));
    assert!(!meta_hybrid::nuke::contains_str("ab", "abc"));
}

#[test]
fn description_line_replacement() {
    let d = meta_hybrid::storage::description_line(StorageMode::Ext4, true, 3, 1);
    assert_eq!(d, "description=Running (Ext4) | Overlay: 3 | Magic: 1 | Nuke: on");
    let lines = vec![s("id=meta-hybrid"), s("description=old"), s("version=1")];
    assert_eq!(meta_hybrid::storage::replace_description(lines, &d), vec![s("id=meta-hybrid"), d.clone(), s("version=1")]);
    assert_eq!(meta_hybrid::storage::description_line(StorageMode::Tmpfs, false, 0, 0), "description=Running (Tmpfs) | Overlay: 0 | Magic: 0");
}

#[test]
fn temp_dir_candidate_order() {
    assert_eq!(temp_dir_candidates(), vec![s("/debug_ramdisk"), s("/patch_hw"), s("/oem"), s("/root"), s("/sbin")]);
}

#[test]
fn lifted_partition_keeps_its_subtree_and_intermediates_are_dirs() {
    let mut system = Node::new_root(s("system"));
    system.add_module_file(&file(&["vendor", "lib", "x.so"], NodeFileType::RegularFile, false, false));
    let vendor = &system.children[0];
    assert_eq!(vendor.file_type, NodeFileType::Directory);
    assert!(vendor.module_source.is_none());
    assert_eq!(vendor.children[0].file_type, NodeFileType::Directory);
    let hosts = vec![PartitionHost { name: s("vendor"), root_is_dir: true, system_entry_is_symlink: true }];
    let root = attach_partitions(system, true, &hosts, &Vec::new(), &Vec::new()).unwrap();
    assert_eq!(root.children[0].name, "vendor");
    assert_eq!(root.children[0].children[0].children[0].name, "x.so");
    assert!(root.children[1].children.is_empty());
}
