use meta_hybrid::diagnostics::{diagnose_plan, DeadLink, DiagnosticLevel};
use meta_hybrid::sync::{is_orphan, is_served, needs_sync};
use meta_hybrid::conflicts::ConflictEntry;
use meta_hybrid::inventory::{scan, Module, ModuleEntry, ModuleRules, MountMode, PathRule};
use meta_hybrid::planner::{
    candidate_partitions, generate, Layer, ModuleContent, MountPlan, OverlayOperation, PartitionTarget,
};

fn s(x: &str) -> String {
    x.to_string()
}

fn entry(name: &str) -> ModuleEntry {
    ModuleEntry {
        name: s(name),
        path: format!("/data/adb/modules/{}", name),
        is_dir: true,
        has_disable: false,
        has_remove: false,
        has_skip_mount: false,
        internal_rules: None,
        user_rules: None,
    }
}

fn module(id: &str, rules: ModuleRules) -> Module {
    Module { id: s(id), source_path: format!("/data/adb/modules/{}", id), rules }
}

fn content(path: &str, parts: &[&str]) -> ModuleContent {
    ModuleContent { content_path: s(path), populated: parts.iter().map(|p| s(p)).collect() }
}

fn target(name: &str, resolved: Option<&str>, is_symlink: bool) -> PartitionTarget {
    PartitionTarget { name: s(name), is_symlink, resolved: resolved.map(s) }
}

fn layer_paths(op: &OverlayOperation) -> Vec<String> {
    op.lowerdirs.iter().map(|l| l.path.clone()).collect()
}

#[test]
fn scan_drops_marked_reserved_and_files() {
    let mut disabled = entry("off");
    disabled.has_disable = true;
    let mut removed = entry("gone");
    removed.has_remove = true;
    let mut skipped = entry("skip");
    skipped.has_skip_mount = true;
    let mut file = entry("plain_file");
    file.is_dir = false;
    let entries = vec![entry("alpha"), disabled, entry("lost+found"), removed, entry("zeta"), skipped, file, entry("meta-hybrid"), entry("mid")];
    let mods = scan(entries);
    let ids: Vec<String> = mods.iter().map(|m| m.id.clone()).collect();
    assert_eq!(ids, vec![s("zeta"), s("mid"), s("alpha")]);
    assert_eq!(mods[0].source_path, "/data/adb/modules/zeta");
}

#[test]
fn scan_of_nothing_is_empty() {
    assert!(scan(Vec::new()).is_empty());
}

#[test]
fn user_rules_override_module_rules() {
    let internal = ModuleRules {
        default_mode: MountMode::Magic,
        paths: vec![PathRule { path: s("vendor"), mode: MountMode::Ignore }, PathRule { path: s("odm"), mode: MountMode::Magic }],
    };
    let user = ModuleRules { default_mode: MountMode::Overlay, paths: vec![PathRule { path: s("vendor"), mode: MountMode::Magic }] };
    let merged = ModuleRules::layered(Some(internal.clone()), Some(user));
    assert_eq!(merged.default_mode, MountMode::Overlay);
    assert_eq!(merged.get_mode("vendor"), MountMode::Magic);
    assert_eq!(merged.get_mode("odm"), MountMode::Magic);
    assert_eq!(merged.get_mode("system"), MountMode::Overlay);
    let alone = ModuleRules::layered(Some(internal), None);
    assert_eq!(alone.default_mode, MountMode::Magic);
    assert_eq!(alone.get_mode("vendor"), MountMode::Ignore);
    let none = ModuleRules::layered(None, None);
    assert_eq!(none.default_mode, MountMode::Overlay);
    assert!(none.paths.is_empty());
}

#[test]
fn scan_layers_rules_of_each_module() {
    let mut e = entry("m");
    e.internal_rules = Some(ModuleRules { default_mode: MountMode::Magic, paths: Vec::new() });
    e.user_rules = Some(ModuleRules { default_mode: MountMode::Ignore, paths: Vec::new() });
    let mods = scan(vec![e]);
    assert_eq!(mods[0].rules.default_mode, MountMode::Ignore);
}

#[test]
fn candidates_are_builtin_then_extras_once() {
    let c = candidate_partitions(&vec![s("my_part"), s("vendor"), s("my_part")]);
    assert_eq!(c, vec![s("system"), s("vendor"), s("product"), s("system_ext"), s("odm"), s("oem"), s("apex"), s("my_part")]);
}

fn plan_for(mods: &Vec<Module>, contents: &Vec<ModuleContent>, targets: &Vec<PartitionTarget>) -> MountPlan {
    generate(&Vec::new(), mods, contents, targets)
}

#[test]
fn single_overlay_module() {
    let mods = vec![module("m1", ModuleRules::new())];
    let contents = vec![content("/mnt/store/m1", &["system"])];
    let targets = vec![target("system", Some("/system"), false)];
    let plan = plan_for(&mods, &contents, &targets);
    assert_eq!(plan.overlay_ops.len(), 1);
    assert_eq!(plan.overlay_ops[0].partition_name, "system");
    assert_eq!(plan.overlay_ops[0].target, "/system");
    assert_eq!(layer_paths(&plan.overlay_ops[0]), vec![s("/mnt/store/m1/system")]);
    assert!(plan.hymo_ops.is_empty());
    assert!(plan.magic_module_paths.is_empty());
    assert_eq!(plan.overlay_module_ids, vec![s("m1")]);
    assert!(plan.magic_module_ids.is_empty());
}

#[test]
fn rule_driven_split() {
    let rules = ModuleRules { default_mode: MountMode::Overlay, paths: vec![PathRule { path: s("vendor"), mode: MountMode::Magic }] };
    let mods = vec![module("m2", rules)];
    let contents = vec![content("/mnt/store/m2", &["system", "vendor"])];
    let targets = vec![target("system", Some("/system"), false), target("vendor", Some("/vendor"), false)];
    let plan = plan_for(&mods, &contents, &targets);
    assert_eq!(plan.overlay_ops.len(), 1);
    assert_eq!(plan.overlay_ops[0].target, "/system");
    assert_eq!(layer_paths(&plan.overlay_ops[0]), vec![s("/mnt/store/m2/system")]);
    assert_eq!(plan.magic_module_paths, vec![s("/mnt/store/m2")]);
    assert_eq!(plan.overlay_module_ids, vec![s("m2")]);
    assert_eq!(plan.magic_module_ids, vec![s("m2")]);
    assert_eq!(plan.magic_roots.len(), 1);
    assert_eq!(plan.magic_roots[0].root, "/mnt/store/m2");
}

#[test]
fn layers_keep_module_order_and_skip_empty_partitions() {
    let mods = vec![module("b", ModuleRules::new()), module("a", ModuleRules::new()), module("c", ModuleRules::new())];
    let contents = vec![content("/s/b", &["system"]), content("/s/a", &["system", "vendor"]), content("/s/c", &[])];
    let targets = vec![target("system", Some("/system"), false), target("vendor", Some("/vendor"), false)];
    let plan = plan_for(&mods, &contents, &targets);
    assert_eq!(plan.overlay_ops.len(), 2);
    assert_eq!(layer_paths(&plan.overlay_ops[0]), vec![s("/s/b/system"), s("/s/a/system")]);
    assert_eq!(plan.overlay_ops[1].partition_name, "vendor");
    assert_eq!(plan.overlay_module_ids, vec![s("a"), s("b")]);
}

#[test]
fn unusable_targets_drop_the_overlay() {
    let mods = vec![module("m", ModuleRules::new())];
    let contents = vec![content("/s/m", &["system", "vendor", "product"])];
    let targets = vec![
        target("system", Some("/system"), true),
        target("vendor", None, false),
        target("product", Some("relative/product"), false),
    ];
    let plan = plan_for(&mods, &contents, &targets);
    assert!(plan.overlay_ops.is_empty());
    assert!(plan.overlay_module_ids.is_empty());
}

#[test]
fn plan_invariants_hold_for_layer_under_target() {
    // a content directory below the target itself is never stacked over it
    let mods = vec![module("m", ModuleRules::new()), module("n", ModuleRules::new())];
    let contents = vec![content("/system/m", &["system"]), content("/s/n", &["system"])];
    let targets = vec![target("system", Some("/system"), false)];
    let plan = plan_for(&mods, &contents, &targets);
    assert_eq!(plan.overlay_ops.len(), 1);
    for op in &plan.overlay_ops {
        assert!(op.target.starts_with('/'));
        assert!(!op.lowerdirs.is_empty());
        for l in &op.lowerdirs {
            assert!(!(l.path == op.target || l.path.starts_with(&format!("{}/", op.target))));
        }
    }
    assert_eq!(layer_paths(&plan.overlay_ops[0]), vec![s("/s/n/system")]);
}

#[test]
fn injection_default_routes_every_partition() {
    let mods = vec![module("h", ModuleRules { default_mode: MountMode::Hymo, paths: Vec::new() })];
    let contents = vec![content("/s/h", &["system", "vendor", "notapart"])];
    let plan = plan_for(&mods, &contents, &vec![target("system", Some("/system"), false)]);
    assert_eq!(plan.hymo_ops.len(), 2);
    assert_eq!(plan.hymo_ops[0].source, "/s/h/system");
    assert_eq!(plan.hymo_ops[0].target, "/system");
    assert_eq!(plan.hymo_ops[1].target, "/vendor");
    assert_eq!(plan.hymo_module_ids, vec![s("h")]);
    assert!(plan.overlay_ops.is_empty());
}

#[test]
fn magic_default_takes_whole_module() {
    let rules = ModuleRules { default_mode: MountMode::Magic, paths: vec![PathRule { path: s("system"), mode: MountMode::Overlay }] };
    let mods = vec![module("g", rules), module("i", ModuleRules { default_mode: MountMode::Ignore, paths: Vec::new() })];
    let contents = vec![content("/s/g", &["system"]), content("/s/i", &["system"])];
    let plan = plan_for(&mods, &contents, &vec![target("system", Some("/system"), false)]);
    assert!(plan.overlay_ops.is_empty());
    assert_eq!(plan.magic_module_ids, vec![s("g")]);
    assert_eq!(plan.magic_module_paths, vec![s("/s/g")]);
}

#[test]
fn conflict_between_two_modules() {
    let op = OverlayOperation {
        partition_name: s("system"),
        target: s("/system"),
        lowerdirs: vec![
            Layer { module_id: s("a"), module_root: s("/s/a"), path: s("/s/a/system") },
            Layer { module_id: s("b"), module_root: s("/s/b"), path: s("/s/b/system") },
        ],
    };
    let plan = MountPlan {
        overlay_ops: vec![op],
        hymo_ops: Vec::new(),
        magic_module_paths: Vec::new(),
        magic_roots: Vec::new(),
        overlay_module_ids: vec![s("a"), s("b")],
        hymo_module_ids: Vec::new(),
        magic_module_ids: Vec::new(),
    };
    let listing = vec![vec![vec![s("app/Foo.apk"), s("etc/a")], vec![s("app/Foo.apk"), s("etc/b")]]];
    let report = plan.analyze_conflicts(&listing);
    assert_eq!(report.details.len(), 1);
    let e: &ConflictEntry = &report.details[0];
    assert_eq!(e.partition, "system");
    assert_eq!(e.relative_path, "app/Foo.apk");
    assert_eq!(e.contending_modules, vec![s("a"), s("b")]);
}

#[test]
fn conflicts_sorted_by_partition_then_path() {
    let layer = |id: &str, part: &str| Layer { module_id: s(id), module_root: format!("/s/{}", id), path: format!("/s/{}/{}", id, part) };
    let vendor = OverlayOperation { partition_name: s("vendor"), target: s("/vendor"), lowerdirs: vec![layer("a", "vendor"), layer("b", "vendor")] };
    let system = OverlayOperation { partition_name: s("system"), target: s("/system"), lowerdirs: vec![layer("a", "system"), layer("b", "system")] };
    let plan = MountPlan {
        overlay_ops: vec![vendor, system],
        hymo_ops: Vec::new(),
        magic_module_paths: Vec::new(),
        magic_roots: Vec::new(),
        overlay_module_ids: Vec::new(),
        hymo_module_ids: Vec::new(),
        magic_module_ids: Vec::new(),
    };
    let listing = vec![
        vec![vec![s("z"), s("lib/x.so")], vec![s("lib/x.so"), s("z")]],
        vec![vec![s("etc/b"), s("etc/a")], vec![s("etc/a"), s("etc/b"), s("only_b")]],
    ];
    let report = plan.analyze_conflicts(&listing);
    let keys: Vec<(String, String)> = report.details.iter().map(|e| (e.partition.clone(), e.relative_path.clone())).collect();
    assert_eq!(
        keys,
        vec![(s("system"), s("etc/a")), (s("system"), s("etc/b")), (s("vendor"), s("lib/x.so")), (s("vendor"), s("z"))]
    );
    let again = plan.analyze_conflicts(&listing);
    assert_eq!(again.details.len(), 4);
}

#[test]
fn workspace_orphans_and_resync() {
    let mods = vec![module("m1", ModuleRules::new()), module("g", ModuleRules { default_mode: MountMode::Magic, paths: Vec::new() })];
    assert!(is_orphan("old", &mods));
    assert!(!is_orphan("m1", &mods));
    assert!(!is_orphan("lost+found", &mods));
    assert!(!is_orphan("meta-hybrid", &mods));
    assert!(needs_sync(&mods[0], true, false, None));
    assert!(needs_sync(&mods[0], true, true, Some(false)));
    assert!(needs_sync(&mods[0], true, true, None));
    assert!(!needs_sync(&mods[0], true, true, Some(true)));
    assert!(!needs_sync(&mods[0], false, false, None));
    assert!(!needs_sync(&mods[1], true, false, None));
    assert!(is_served("vendor", &vec![s("vendor")]));
    assert!(is_served("etc", &vec![s("system")]));
    assert!(!is_served("etc", &vec![s("vendor")]));
}

#[test]
fn plan_diagnostics() {
    let mods = vec![module("m1", ModuleRules::new()), module("m2", ModuleRules::new())];
    let contents = vec![content("/s/m1", &["system", "vendor"]), content("/s/m2", &["system"])];
    let targets = vec![target("system", Some("/system"), false), target("vendor", Some("/vendor"), false)];
    let plan = plan_for(&mods, &contents, &targets);
    let dead = vec![DeadLink { module_id: s("m2"), link: s("/s/m2/system/bin/x"), target: s("/nowhere") }];
    let issues = diagnose_plan(&plan, &vec![true, false], &dead);
    assert_eq!(issues.len(), 2);
    assert_eq!(issues[0].level, DiagnosticLevel::Critical);
    assert_eq!(issues[0].context, "vendor");
    assert_eq!(issues[0].message, "Target mount point does not exist: /vendor");
    assert_eq!(issues[1].level, DiagnosticLevel::Warning);
    assert_eq!(issues[1].message, "Dead absolute symlink: /s/m2/system/bin/x -> /nowhere");
    assert!(diagnose_plan(&plan, &vec![true, true], &Vec::new()).is_empty());
}

#[test]
fn marked_modules_are_never_planned() {
    let mut off = entry("off");
    off.has_skip_mount = true;
    let mods = scan(vec![entry("on"), off]);
    assert_eq!(mods.len(), 1);
    let contents: Vec<ModuleContent> = mods.iter().map(|m| content(&format!("/s/{}", m.id), &["system"])).collect();
    let plan = plan_for(&mods, &contents, &vec![target("system", Some("/system"), false)]);
    let off_id = s("off");
    assert!(!plan.overlay_module_ids.contains(&off_id));
    assert!(!plan.hymo_module_ids.contains(&off_id));
    assert!(!plan.magic_module_ids.contains(&off_id));
    assert_eq!(plan.overlay_module_ids, vec![s("on")]);
}
