use meta_hybrid::executor::Execution;
use meta_hybrid::planner::{HymoOperation, Layer, MagicRoot, MountPlan, OverlayOperation};

fn s(x: &str) -> String {
    x.to_string()
}

fn layer(id: &str, part: &str) -> Layer {
    Layer { module_id: s(id), module_root: format!("/s/{}", id), path: format!("/s/{}/{}", id, part) }
}

fn hymo(id: &str, part: &str) -> HymoOperation {
    HymoOperation {
        module_id: s(id),
        module_root: format!("/s/{}", id),
        partition: s(part),
        source: format!("/s/{}/{}", id, part),
        target: format!("/{}", part),
    }
}

fn empty_plan() -> MountPlan {
    MountPlan {
        overlay_ops: Vec::new(),
        hymo_ops: Vec::new(),
        magic_module_paths: Vec::new(),
        magic_roots: Vec::new(),
        overlay_module_ids: Vec::new(),
        hymo_module_ids: Vec::new(),
        magic_module_ids: Vec::new(),
    }
}

fn disjoint(a: &[String], b: &[String]) -> bool {
    a.iter().all(|x| !b.contains(x))
}

#[test]
fn overlay_failure_falls_back_to_magic() {
    let mut plan = empty_plan();
    plan.overlay_ops.push(OverlayOperation {
        partition_name: s("system"),
        target: s("/system"),
        lowerdirs: vec![layer("a", "system"), layer("b", "system")],
    });
    plan.overlay_module_ids = vec![s("a"), s("b")];
    let mut e = Execution::new(plan);
    e.record_injections(true, &Vec::new());
    e.merge_fallbacks(&Vec::new());
    e.record_overlays(&vec![false]);
    assert_eq!(e.magic_paths(), vec![s("/s/a"), s("/s/b")]);
    let r = e.finish(true);
    assert!(r.overlay_module_ids.is_empty());
    assert_eq!(r.magic_module_ids, vec![s("a"), s("b")]);
}

#[test]
fn failed_magic_mount_clears_magic_ids() {
    let mut plan = empty_plan();
    plan.magic_roots.push(MagicRoot { module_id: s("m"), root: s("/s/m") });
    plan.magic_module_ids = vec![s("m")];
    let mut e = Execution::new(plan);
    e.record_injections(false, &Vec::new());
    e.merge_fallbacks(&Vec::new());
    e.record_overlays(&Vec::new());
    let r = e.finish(false);
    assert!(r.magic_module_ids.is_empty());
}

#[test]
fn failed_injections_merge_in_front_or_go_to_magic() {
    let mut plan = empty_plan();
    plan.overlay_ops.push(OverlayOperation { partition_name: s("system"), target: s("/system"), lowerdirs: vec![layer("o", "system")] });
    plan.overlay_module_ids = vec![s("o")];
    plan.hymo_ops = vec![hymo("h", "system"), hymo("k", "vendor"), hymo("x", "odm"), hymo("ok", "product")];
    plan.hymo_module_ids = vec![s("h"), s("k"), s("ok"), s("x")];
    let mut e = Execution::new(plan);
    e.record_injections(true, &vec![false, false, false, true]);
    assert_eq!(e.fallbacks.len(), 3);
    assert_eq!(e.served.len(), 1);
    // vendor exists on the host, odm does not
    e.merge_fallbacks(&vec![true, true, false]);
    assert!(e.fallbacks.is_empty());
    assert_eq!(e.overlay_ops.len(), 2);
    let sys: Vec<String> = e.overlay_ops[0].lowerdirs.iter().map(|l| l.module_id.clone()).collect();
    assert_eq!(sys, vec![s("h"), s("o")]);
    assert_eq!(e.overlay_ops[1].target, "/vendor");
    e.record_overlays(&vec![true, true]);
    let r = e.finish(true);
    assert_eq!(r.overlay_module_ids, vec![s("h"), s("k"), s("o")]);
    assert_eq!(r.hymo_module_ids, vec![s("ok")]);
    assert_eq!(r.magic_module_ids, vec![s("x")]);
    assert!(disjoint(&r.overlay_module_ids, &r.hymo_module_ids));
    assert!(disjoint(&r.overlay_module_ids, &r.magic_module_ids));
    assert!(disjoint(&r.hymo_module_ids, &r.magic_module_ids));
}

#[test]
fn missing_driver_fails_every_injection() {
    let mut plan = empty_plan();
    plan.hymo_ops = vec![hymo("h", "system")];
    plan.hymo_module_ids = vec![s("h")];
    let mut e = Execution::new(plan);
    e.record_injections(false, &vec![true]);
    assert_eq!(e.fallbacks.len(), 1);
    e.merge_fallbacks(&vec![false]);
    e.record_overlays(&Vec::new());
    let r = e.finish(true);
    assert!(r.hymo_module_ids.is_empty());
    assert!(r.overlay_module_ids.is_empty());
    assert_eq!(r.magic_module_ids, vec![s("h")]);
}

#[test]
fn later_fallbacks_take_precedence_over_earlier_and_plan_layers() {
    let mut plan = empty_plan();
    plan.overlay_ops.push(OverlayOperation { partition_name: s("system"), target: s("/system"), lowerdirs: vec![layer("o1", "system"), layer("o2", "system")] });
    plan.overlay_module_ids = vec![s("o1"), s("o2")];
    plan.hymo_ops = vec![hymo("h1", "system"), hymo("h2", "system")];
    plan.hymo_module_ids = vec![s("h1"), s("h2")];
    let mut e = Execution::new(plan);
    e.record_injections(true, &vec![false, false]);
    e.merge_fallbacks(&vec![true, true]);
    let ids: Vec<String> = e.overlay_ops[0].lowerdirs.iter().map(|l| l.module_id.clone()).collect();
    assert_eq!(ids, vec![s("h2"), s("h1"), s("o1"), s("o2")]);
    assert_eq!(e.overlay_ops.len(), 1);
    assert!(e.magic_queue.is_empty());
}
